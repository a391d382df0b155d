//! Rendering a diagnostic: a headline, the place, the source line with the
//! offending span underlined, and an optional hint.
//!
//! Whether colour codes are written is decided by the caller (it depends on
//! the terminal and the environment), and handed in as `colored`.

use vstd::prelude::*;

use crate::chars::{chars_of, owned, push_char, push_chars, push_decimal, push_str};
use crate::msg;

verus! {

pub const RED: &'static str = "\x1b[1;31m";

pub const BLUE: &'static str = "\x1b[1;34m";

pub const BOLD: &'static str = "\x1b[1m";

pub const RESET: &'static str = "\x1b[0m";

pub open spec fn spec_tint(code: Seq<char>, text: Seq<char>, colored: bool) -> Seq<char> {
    if colored {
        code + text + RESET@
    } else {
        text
    }
}

fn tint(code: &str, text: &str, colored: bool) -> (out: String)
    ensures
        out@ == spec_tint(code@, text@, colored),
{
    if colored {
        let mut out = owned(code);
        push_str(&mut out, text);
        push_str(&mut out, RESET);
        out
    } else {
        owned(text)
    }
}

pub fn red(text: &str, colored: bool) -> (out: String)
    ensures
        out@ == spec_tint(RED@, text@, colored),
{
    tint(RED, text, colored)
}

pub fn blue(text: &str, colored: bool) -> (out: String)
    ensures
        out@ == spec_tint(BLUE@, text@, colored),
{
    tint(BLUE, text, colored)
}

pub fn bold(text: &str, colored: bool) -> (out: String)
    ensures
        out@ == spec_tint(BOLD@, text@, colored),
{
    tint(BOLD, text, colored)
}

/// `kind: message` on a line of its own, for diagnostics without a place.
pub fn plain(kind: &str, message: &str, colored: bool) -> (out: String)
    ensures
        out@ == spec_tint(RED@, kind@, colored) + ": "@ + spec_tint(BOLD@, message@, colored)
            + "\n"@,
{
    let mut out = red(kind, colored);
    push_str(&mut out, ": ");
    let shown = bold(message, colored);
    push_str(&mut out, shown.as_str());
    push_str(&mut out, "\n");
    out
}

/// A `참고: message` line.
pub fn note(message: &str, colored: bool) -> (out: String)
    ensures
        out@ == spec_tint(BOLD@, msg::NOTE@, colored) + ": "@ + message@ + "\n"@,
{
    let mut out = bold(msg::NOTE, colored);
    push_str(&mut out, ": ");
    push_str(&mut out, message);
    push_str(&mut out, "\n");
    out
}

/// The number of terminal columns a character takes: two for wide East
/// Asian characters, one for the rest.
pub open spec fn spec_width(ch: char) -> nat {
    let c = ch as u32;
    if (0x1100 <= c <= 0x115F) || (0x2E80 <= c <= 0xA4CF) || (0xAC00 <= c <= 0xD7A3) || (0xF900
        <= c <= 0xFAFF) || (0xFE30 <= c <= 0xFE6F) || (0xFF00 <= c <= 0xFF60) || (0xFFE0 <= c
        <= 0xFFE6) {
        2
    } else {
        1
    }
}

fn width(ch: char) -> (found: usize)
    ensures
        found == spec_width(ch),
{
    let c = ch as u32;
    if (0x1100 <= c && c <= 0x115F) || (0x2E80 <= c && c <= 0xA4CF) || (0xAC00 <= c && c
        <= 0xD7A3) || (0xF900 <= c && c <= 0xFAFF) || (0xFE30 <= c && c <= 0xFE6F) || (0xFF00
        <= c && c <= 0xFF60) || (0xFFE0 <= c && c <= 0xFFE6) {
        2
    } else {
        1
    }
}

/// The total width of a run of characters.
pub open spec fn width_sum(s: Seq<char>) -> nat
    decreases s.len(),
{
    if s.len() == 0 {
        0
    } else {
        width_sum(s.drop_last()) + spec_width(s.last())
    }
}

fn widths(chars: &Vec<char>, from: usize, to: usize) -> (total: u128)
    requires
        from <= to <= chars@.len(),
    ensures
        total == width_sum(chars@.subrange(from as int, to as int)),
        total <= 2 * (to - from),
{
    let mut total: u128 = 0;
    let mut at = from;
    while at < to
        invariant
            from <= at <= to <= chars@.len(),
            total == width_sum(chars@.subrange(from as int, at as int)),
            total <= 2 * (at - from),
        decreases to - at,
    {
        assert(chars@.subrange(from as int, at + 1).drop_last() == chars@.subrange(
            from as int,
            at as int,
        ));
        total = total + width(chars[at]) as u128;
        at += 1;
    }
    total
}

/// `count` copies of `ch`.
pub open spec fn repeated(ch: char, count: nat) -> Seq<char> {
    Seq::new(count, |_i: int| ch)
}

fn push_repeated(into: &mut String, ch: char, count: u128)
    ensures
        final(into)@ == old(into)@ + repeated(ch, count as nat),
{
    let ghost start = into@;
    let mut done: u128 = 0;
    while done < count
        invariant
            done <= count,
            into@ == start + repeated(ch, done as nat),
        decreases count - done,
    {
        push_char(into, ch);
        done += 1;
        assert(repeated(ch, done as nat) == repeated(ch, (done - 1) as nat).push(ch));
    }
}

/// Where the first line break of `s` is, or its length if it has none.
pub open spec fn newline_index(s: Seq<char>) -> nat
    decreases s.len(),
{
    if s.len() == 0 {
        0
    } else if s[0] == '\n' {
        0
    } else {
        newline_index(s.skip(1)) + 1
    }
}

/// Line `n` (from 0) of `s`, as `str::lines` yields it: lines end at `\n`, a
/// `\r` before that `\n` is dropped, and a final line break adds no empty line.
pub open spec fn nth_line(s: Seq<char>, n: nat) -> Option<Seq<char>>
    decreases s.len(),
{
    if s.len() == 0 {
        None
    } else {
        let e = newline_index(s);
        if e >= s.len() {
            if n == 0 {
                Some(s)
            } else {
                None
            }
        } else {
            let body = s.take(e as int);
            let line = if body.len() > 0 && body.last() == '\r' {
                body.drop_last()
            } else {
                body
            };
            if n == 0 {
                Some(line)
            } else {
                nth_line(s.skip(e + 1 as int), (n - 1) as nat)
            }
        }
    }
}

proof fn lemma_newline_index(s: Seq<char>, at: int)
    requires
        0 <= at <= s.len(),
        forall|j: int| 0 <= j < at ==> s[j] != '\n',
    ensures
        at < s.len() && s[at] == '\n' ==> newline_index(s) == at,
        at == s.len() ==> newline_index(s) == s.len(),
        newline_index(s) <= s.len(),
    decreases s.len(),
{
    if s.len() > 0 {
        if at > 0 {
            assert forall|j: int| 0 <= j < at - 1 implies s.skip(1)[j] != '\n' by {
                assert(s.skip(1)[j] == s[j + 1]);
            }
            lemma_newline_index(s.skip(1), at - 1);
        } else {
            lemma_newline_index(s.skip(1), 0);
        }
    }
}

/// The bounds `[from, to)` of line `n` of `chars`, if there is such a line.
fn find_line(chars: &Vec<char>, n: usize) -> (found: Option<(usize, usize)>)
    ensures
        match found {
            Some((from, to)) => from <= to <= chars@.len() && nth_line(chars@, n as nat) == Some(
                chars@.subrange(from as int, to as int),
            ),
            None => nth_line(chars@, n as nat) is None,
        },
{
    let mut start: usize = 0;
    let mut left: usize = n;
    assert(chars@.skip(0) == chars@);
    loop
        invariant
            start <= chars@.len(),
            nth_line(chars@, n as nat) == nth_line(chars@.skip(start as int), left as nat),
        decreases chars@.len() - start,
    {
        let ghost rest = chars@.skip(start as int);
        if start == chars.len() {
            return None;
        }
        let mut stop = start;
        while stop < chars.len() && chars[stop] != '\n'
            invariant
                start <= stop <= chars@.len(),
                forall|j: int| start <= j < stop ==> chars@[j] != '\n',
            decreases chars@.len() - stop,
        {
            stop += 1;
        }
        proof {
            assert forall|j: int| 0 <= j < stop - start implies rest[j] != '\n' by {
                assert(rest[j] == chars@[start + j]);
            }
            lemma_newline_index(rest, stop - start);
        }
        if stop == chars.len() {
            if left == 0 {
                assert(rest == chars@.subrange(start as int, stop as int));
                return Some((start, stop));
            }
            return None;
        }
        if left == 0 {
            let to = if stop > start && chars[stop - 1] == '\r' {
                stop - 1
            } else {
                stop
            };
            assert(rest.take(stop - start) == chars@.subrange(start as int, stop as int));
            if stop > start {
                assert(chars@.subrange(start as int, stop as int).drop_last() == chars@.subrange(
                    start as int,
                    stop - 1,
                ));
            }
            return Some((start, to));
        }
        assert(rest.skip(stop - start + 1) == chars@.skip(stop + 1));
        start = stop + 1;
        left = left - 1;
    }
}

} // verus!
verus! {

/// A diagnostic to render: its kind and message, an optional hint, and where
/// it points (1-based line, 0-based columns `col..end` in characters).
pub struct Report<'a> {
    pub kind: &'a str,
    pub msg: &'a str,
    pub hint: Option<&'a str>,
    pub path: &'a str,
    pub source: Option<&'a str>,
    pub line: usize,
    pub col: usize,
    pub end: usize,
}

pub open spec fn min_nat(a: nat, b: nat) -> nat {
    if a < b {
        a
    } else {
        b
    }
}

/// The rendered source excerpt: the line and the underline beneath the span.
pub open spec fn excerpt(text: Seq<char>, line: nat, col: nat, end: nat, rule: Seq<char>, colored: bool) -> Seq<char> {
    let before = min_nat(col, text.len());
    let wanted: nat = if end > col {
        (end - col) as nat
    } else {
        1
    };
    let marked = min_nat(wanted, (text.len() - before) as nat);
    let pad = width_sum(text.take(before as int));
    let mark = width_sum(text.subrange(before as int, before + marked as int));
    rule + "\n"@ + spec_tint(BLUE@, crate::chars::decimal(line) + " |"@, colored) + " "@ + text
        + "\n"@ + rule + " "@ + repeated(' ', pad) + spec_tint(
        RED@,
        repeated(
            '^',
            if mark > 0 {
                mark
            } else {
                1
            },
        ),
        colored,
    ) + "\n"@
}

pub open spec fn gutter_bar(line: nat) -> Seq<char> {
    repeated(' ', crate::chars::decimal(line).len())
}

pub open spec fn rule_of(line: nat, colored: bool) -> Seq<char> {
    spec_tint(BLUE@, gutter_bar(line) + " |"@, colored)
}

/// The headline and the `-->` place line.
pub open spec fn heading(kind: Seq<char>, msg: Seq<char>, path: Seq<char>, line: nat, col: nat, colored: bool) -> Seq<char> {
    spec_tint(RED@, kind, colored) + ": "@ + spec_tint(BOLD@, msg, colored) + "\n"@ + spec_tint(
        BLUE@,
        gutter_bar(line) + "-->"@,
        colored,
    ) + " "@ + path + ":"@ + crate::chars::decimal(line) + ":"@ + crate::chars::decimal(col + 1)
        + "\n"@
}

/// The source excerpt, when the source has the wanted line.
pub open spec fn shown_source(source: Option<Seq<char>>, line: nat, col: nat, end: nat, colored: bool) -> Seq<char> {
    let wanted_line: nat = if line > 0 {
        (line - 1) as nat
    } else {
        0
    };
    match source {
        Some(whole) => match nth_line(whole, wanted_line) {
            Some(text) => excerpt(text, line, col, end, rule_of(line, colored), colored),
            None => seq![],
        },
        None => seq![],
    }
}

/// The help line, when there is a hint.
pub open spec fn shown_hint(hint: Option<Seq<char>>, line: nat, colored: bool) -> Seq<char> {
    match hint {
        Some(hint) => rule_of(line, colored) + "\n"@ + spec_tint(
            BLUE@,
            gutter_bar(line) + " ="@,
            colored,
        ) + " "@ + spec_tint(BOLD@, msg::HELP@, colored) + ": "@ + hint + "\n"@,
        None => seq![],
    }
}

/// The whole rendered report.
pub open spec fn render_text(
    kind: Seq<char>,
    msg: Seq<char>,
    hint: Option<Seq<char>>,
    path: Seq<char>,
    source: Option<Seq<char>>,
    line: nat,
    col: nat,
    end: nat,
    colored: bool,
) -> Seq<char> {
    heading(kind, msg, path, line, col, colored) + shown_source(source, line, col, end, colored)
        + shown_hint(hint, line, colored)
}

pub open spec fn str_opt(found: Option<&str>) -> Option<Seq<char>> {
    match found {
        Some(text) => Some(text@),
        None => None,
    }
}

/// The rendering of a report.
pub open spec fn rendered(report: Report, colored: bool) -> Seq<char> {
    render_text(
        report.kind@,
        report.msg@,
        str_opt(report.hint),
        report.path@,
        str_opt(report.source),
        report.line as nat,
        report.col as nat,
        report.end as nat,
        colored,
    )
}

/// The number of characters of the decimal numeral of `n`.
fn decimal_len(n: u64) -> (count: u64)
    ensures
        count == crate::chars::decimal(n as nat).len(),
        count <= n / 2 + 1,
    decreases n,
{
    if n < 10 {
        1
    } else {
        decimal_len(n / 10) + 1
    }
}

fn excerpt_text(
    chars: &Vec<char>,
    from: usize,
    to: usize,
    line: usize,
    col: usize,
    end: usize,
    rule: &String,
    colored: bool,
) -> (out: String)
    requires
        from <= to <= chars@.len(),
    ensures
        out@ == excerpt(
            chars@.subrange(from as int, to as int),
            line as nat,
            col as nat,
            end as nat,
            rule@,
            colored,
        ),
{
    let ghost text = chars@.subrange(from as int, to as int);
    let len = to - from;
    let before = if col < len {
        col
    } else {
        len
    };
    let wanted_mark = if end > col {
        end - col
    } else {
        1
    };
    let marked = if wanted_mark < len - before {
        wanted_mark
    } else {
        len - before
    };
    let pad = widths(chars, from, from + before);
    let mark = widths(chars, from + before, from + before + marked);
    assert(text.take(before as int) == chars@.subrange(from as int, from + before));
    assert(text.subrange(before as int, before + marked) == chars@.subrange(
        from + before,
        from + before + marked,
    ));
    let mut out = rule.clone();
    push_str(&mut out, "\n");
    let mut here_text = String::new();
    push_decimal(&mut here_text, line as u64);
    push_str(&mut here_text, " |");
    let here = blue(here_text.as_str(), colored);
    push_str(&mut out, here.as_str());
    push_str(&mut out, " ");
    push_chars(&mut out, chars.as_slice(), from, to);
    push_str(&mut out, "\n");
    push_str(&mut out, rule.as_str());
    push_str(&mut out, " ");
    push_repeated(&mut out, ' ', pad);
    let mut carets = String::new();
    push_repeated(
        &mut carets,
        '^',
        if mark > 0 {
            mark
        } else {
            1
        },
    );
    let shown = red(carets.as_str(), colored);
    push_str(&mut out, shown.as_str());
    push_str(&mut out, "\n");
    out
}

impl<'a> Report<'a> {
    fn bar(&self) -> (bar: String)
        ensures
            bar@ == gutter_bar(self.line as nat),
    {
        let gutter = decimal_len(self.line as u64);
        let mut bar = String::new();
        push_repeated(&mut bar, ' ', gutter as u128);
        bar
    }

    fn heading(&self, bar: &String, colored: bool) -> (out: String)
        requires
            self.col < usize::MAX,
            bar@ == gutter_bar(self.line as nat),
        ensures
            out@ == heading(self.kind@, self.msg@, self.path@, self.line as nat, self.col as nat, colored),
    {
        let mut out = red(self.kind, colored);
        push_str(&mut out, ": ");
        let shown = bold(self.msg, colored);
        push_str(&mut out, shown.as_str());
        push_str(&mut out, "\n");
        let mut arrow = bar.clone();
        push_str(&mut arrow, "-->");
        let shown = blue(arrow.as_str(), colored);
        push_str(&mut out, shown.as_str());
        push_str(&mut out, " ");
        push_str(&mut out, self.path);
        push_str(&mut out, ":");
        push_decimal(&mut out, self.line as u64);
        push_str(&mut out, ":");
        push_decimal(&mut out, (self.col + 1) as u64);
        push_str(&mut out, "\n");
        out
    }

    fn source_excerpt(&self, rule: &String, colored: bool) -> (out: String)
        requires
            rule@ == rule_of(self.line as nat, colored),
        ensures
            out@ == shown_source(str_opt(self.source), self.line as nat, self.col as nat, self.end as nat, colored),
    {
        if let Some(whole) = self.source {
            let chars = chars_of(whole);
            let wanted = if self.line > 0 {
                self.line - 1
            } else {
                0
            };
            if let Some((from, to)) = find_line(&chars, wanted) {
                return excerpt_text(&chars, from, to, self.line, self.col, self.end, rule, colored);
            }
        }
        String::new()
    }

    fn hint_text(&self, bar: &String, rule: &String, colored: bool) -> (out: String)
        requires
            bar@ == gutter_bar(self.line as nat),
            rule@ == rule_of(self.line as nat, colored),
        ensures
            out@ == shown_hint(str_opt(self.hint), self.line as nat, colored),
    {
        match self.hint {
            Some(hint) => {
                let mut out = rule.clone();
                push_str(&mut out, "\n");
                let mut eq = bar.clone();
                push_str(&mut eq, " =");
                let shown = blue(eq.as_str(), colored);
                push_str(&mut out, shown.as_str());
                push_str(&mut out, " ");
                let shown = bold(msg::HELP, colored);
                push_str(&mut out, shown.as_str());
                push_str(&mut out, ": ");
                push_str(&mut out, hint);
                push_str(&mut out, "\n");
                out
            },
            None => String::new(),
        }
    }

    /// Renders the report. The column count is bounded by what fits in memory.
    pub fn render(&self, colored: bool) -> (out: String)
        requires
            self.col < usize::MAX,
        ensures
            out@ == rendered(*self, colored),
    {
        let bar = self.bar();
        let mut rule_text = bar.clone();
        push_str(&mut rule_text, " |");
        let rule = blue(rule_text.as_str(), colored);
        let mut out = self.heading(&bar, colored);
        let shown = self.source_excerpt(&rule, colored);
        push_str(&mut out, shown.as_str());
        let shown = self.hint_text(&bar, &rule, colored);
        push_str(&mut out, shown.as_str());
        out
    }
}

} // verus!
