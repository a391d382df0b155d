//! The lexer: from source text to tokens. A line is cut into words, and a
//! word into the name, verb, copula and particles it is made of.

use vstd::prelude::*;

use crate::chars::{chars_of, owned, push_char, string_of};
use crate::diag::{Diag, Span};
use crate::hangul::{Ending, Pos};
use crate::msg;
use crate::words::{FormTable, Form};

verus! {

/// A number literal: an integer that fits in `i64`, or a real numeral kept
/// as its decimal text (what std's `f64` parser reads from that text is
/// its value).
#[derive(Clone, Debug, PartialEq)]
pub enum Num {
    Int(i64),
    Float(String),
}

/// A piece of a string template: literal text, or an embedded expression
/// with its place in the line.
#[derive(Clone, Debug, PartialEq)]
pub enum Part {
    Text(String),
    Expr { source: String, span: Span },
}

#[derive(Clone, Debug, PartialEq)]
pub enum Tok {
    Name(String),
    Verb { name: String, pos: Pos, ending: Ending },
    Copula { ending: Ending },
    Particle { role: &'static str, canon: &'static str },
    Keyword(String),
    Number(Num),
    Str(String),
    Template(Vec<Part>),
    Symbol(char),
    Indent(usize),
    Dedent(usize),
    Newline,
    Eof,
}

#[derive(Clone, Debug)]
pub struct Token {
    pub tok: Tok,
    pub span: Span,
}

/// What a number literal stands for.
pub enum NumModel {
    Int(int),
    Float(Seq<char>),
}

/// What a template piece stands for.
pub enum PartModel {
    Text(Seq<char>),
    Expr(Seq<char>, Span),
}

/// What a token stands for: its kind and its text as character sequences.
pub enum TokModel {
    Name(Seq<char>),
    Verb(Seq<char>, Pos, Ending),
    Copula(Ending),
    Particle(Seq<char>, Seq<char>),
    Keyword(Seq<char>),
    Number(NumModel),
    Str(Seq<char>),
    Template(Seq<PartModel>),
    Symbol(char),
    Indent(nat),
    Dedent(nat),
    Newline,
    Eof,
}

/// A token and its place.
pub type TokenModel = (TokModel, Span);

/// A lexical error: its message and its place.
pub type Fault = (Seq<char>, Span);

impl View for Num {
    type V = NumModel;

    open spec fn view(&self) -> NumModel {
        match self {
            Num::Int(value) => NumModel::Int(*value as int),
            Num::Float(text) => NumModel::Float(text@),
        }
    }
}

impl View for Part {
    type V = PartModel;

    open spec fn view(&self) -> PartModel {
        match self {
            Part::Text(text) => PartModel::Text(text@),
            Part::Expr { source, span } => PartModel::Expr(source@, *span),
        }
    }
}

pub open spec fn parts_view(found: Seq<Part>) -> Seq<PartModel> {
    Seq::new(found.len(), |i: int| found[i]@)
}

impl View for Tok {
    type V = TokModel;

    open spec fn view(&self) -> TokModel {
        match self {
            Tok::Name(text) => TokModel::Name(text@),
            Tok::Verb { name, pos, ending } => TokModel::Verb(name@, *pos, *ending),
            Tok::Copula { ending } => TokModel::Copula(*ending),
            Tok::Particle { role, canon } => TokModel::Particle(role@, canon@),
            Tok::Keyword(text) => TokModel::Keyword(text@),
            Tok::Number(num) => TokModel::Number(num@),
            Tok::Str(text) => TokModel::Str(text@),
            Tok::Template(parts) => TokModel::Template(parts_view(parts@)),
            Tok::Symbol(ch) => TokModel::Symbol(*ch),
            Tok::Indent(depth) => TokModel::Indent(*depth as nat),
            Tok::Dedent(depth) => TokModel::Dedent(*depth as nat),
            Tok::Newline => TokModel::Newline,
            Tok::Eof => TokModel::Eof,
        }
    }
}

impl View for Token {
    type V = TokenModel;

    open spec fn view(&self) -> TokenModel {
        (self.tok@, self.span)
    }
}

pub open spec fn tokens_view(found: Seq<Token>) -> Seq<TokenModel> {
    Seq::new(found.len(), |i: int| found[i]@)
}

/// The place `col..end` on `line`.
pub open spec fn span_at(line: usize, col: int, end: int) -> Span {
    Span { line, col: col as usize, end: end as usize }
}

/// A token at `col..end` on `line`.
pub open spec fn token_at(tok: TokModel, line: usize, col: int, end: int) -> TokenModel {
    (tok, span_at(line, col, end))
}

/// Whether a lexing result is the expected one: the same tokens, or a
/// lexical error with the expected message and place.
pub open spec fn lexed(found: Result<Vec<Token>, Diag>, expected: Result<Seq<TokenModel>, Fault>) -> bool {
    match found {
        Ok(tokens) => expected == Ok::<Seq<TokenModel>, Fault>(tokens_view(tokens@)),
        Err(diag) => {
            &&& diag.kind == msg::LEX
            &&& diag.hint is None
            &&& diag.unit is None
            &&& expected == Err::<Seq<TokenModel>, Fault>((diag.msg@, diag.span))
        },
    }
}

impl Token {
    fn new(tok: Tok, line: usize, col: usize, end: usize) -> (made: Token)
        ensures
            made.tok == tok,
            made.span == span_at(line, col as int, end as int),
    {
        Token { tok, span: Span::new(line, col, end) }
    }
}

} // verus!
verus! {

/// An ASCII digit.
pub open spec fn digit(c: char) -> bool {
    48 <= c as u32 <= 57
}

fn is_digit(c: char) -> (found: bool)
    ensures
        found == digit(c),
{
    let n = c as u32;
    48 <= n && n <= 57
}

/// Whether `c` is alphabetic or numeric by Unicode's tables.
pub uninterp spec fn alphanumeric(c: char) -> bool;

/// `char::is_alphanumeric` of std: whether `c` has Unicode's Alphabetic
/// property or a numeric general category; the result is named
/// `alphanumeric`, as the tables it reads are not restated here.
#[verifier::external_body]
fn is_alphanumeric(c: char) -> (found: bool)
    ensures
        found == alphanumeric(c),
{
    c.is_alphanumeric()
}

/// Unicode's White_Space property.
pub open spec fn white_space(c: char) -> bool {
    let n = c as u32;
    ||| 9 <= n <= 13
    ||| n == 32
    ||| n == 0x85
    ||| n == 0xA0
    ||| n == 0x1680
    ||| 0x2000 <= n <= 0x200A
    ||| n == 0x2028
    ||| n == 0x2029
    ||| n == 0x202F
    ||| n == 0x205F
    ||| n == 0x3000
}

/// Whether `c` has Unicode's White_Space property, as `char::is_whitespace`
/// of std decides it: the characters that `white_space` lists.
fn is_whitespace(c: char) -> (found: bool)
    ensures
        found == white_space(c),
{
    let n = c as u32;
    (9 <= n && n <= 13) || n == 32 || n == 0x85 || n == 0xA0 || n == 0x1680
        || (0x2000 <= n && n <= 0x200A) || n == 0x2028 || n == 0x2029 || n == 0x202F
        || n == 0x205F || n == 0x3000
}

/// How std's `Debug` shows a character: quoted, with escapes.
pub uninterp spec fn char_debug(c: char) -> Seq<char>;

/// `format!("{:?}", c)` of std: the character as `Debug` shows it; the
/// result is named `char_debug`, the escaping rules are not restated here.
#[verifier::external_body]
fn debug_char(c: char) -> (shown: String)
    ensures
        shown@ == char_debug(c),
{
    format!("{c:?}")
}

/// A character that words are made of.
pub open spec fn word_char(c: char) -> bool {
    alphanumeric(c) || c == '_'
}

fn is_word_char(ch: char) -> (found: bool)
    ensures
        found == word_char(ch),
{
    is_alphanumeric(ch) || ch == '_'
}

/// A point at `j` with a digit right after it.
pub open spec fn dotted_digit(chars: Seq<char>, j: int) -> bool {
    chars[j] == '.' && j + 1 < chars.len() && digit(chars[j + 1])
}

fn is_dotted_digit(chars: &Vec<char>, j: usize) -> (found: bool)
    requires
        j < chars@.len(),
    ensures
        found == dotted_digit(chars@, j as int),
{
    chars[j] == '.' && j < chars.len() - 1 && is_digit(chars[j + 1])
}

/// Where a word that goes on at `j` ends: word characters, and in a word
/// that starts with a digit, points between digits.
pub open spec fn word_end_from(chars: Seq<char>, numeric: bool, j: int) -> int
    decreases chars.len() - j,
{
    if j >= chars.len() {
        j
    } else if word_char(chars[j]) || (numeric && dotted_digit(chars, j)) {
        word_end_from(chars, numeric, j + 1)
    } else {
        j
    }
}

pub open spec fn spec_word_end(chars: Seq<char>, start: int) -> int {
    word_end_from(chars, digit(chars[start]), start)
}

fn word_end(chars: &Vec<char>, start: usize) -> (end: usize)
    requires
        start < chars@.len(),
    ensures
        end == spec_word_end(chars@, start as int),
        start <= end <= chars@.len(),
{
    let numeric = is_digit(chars[start]);
    let mut j = start;
    while j < chars.len()
        invariant
            start <= j <= chars@.len(),
            numeric == digit(chars@[start as int]),
            word_end_from(chars@, numeric, start as int) == word_end_from(chars@, numeric, j as int),
        ensures
            word_end_from(chars@, numeric, start as int) == j,
        decreases chars@.len() - j,
    {
        let dotted = numeric && is_dotted_digit(chars, j);
        if !is_word_char(chars[j]) && !dotted {
            break;
        }
        j += 1;
    }
    j
}

/// Where the digits going on at `j` end, points between digits included.
pub open spec fn digits_end_from(chars: Seq<char>, j: int) -> int
    decreases chars.len() - j,
{
    if j >= chars.len() {
        j
    } else if digit(chars[j]) || dotted_digit(chars, j) {
        digits_end_from(chars, j + 1)
    } else {
        j
    }
}

fn digits_end(chars: &Vec<char>, start: usize) -> (end: usize)
    requires
        start <= chars@.len(),
    ensures
        end == digits_end_from(chars@, start as int),
        start <= end <= chars@.len(),
{
    let mut j = start;
    while j < chars.len()
        invariant
            start <= j <= chars@.len(),
            digits_end_from(chars@, start as int) == digits_end_from(chars@, j as int),
        ensures
            digits_end_from(chars@, start as int) == j,
        decreases chars@.len() - j,
    {
        if !is_digit(chars[j]) && !is_dotted_digit(chars, j) {
            break;
        }
        j += 1;
    }
    j
}

} // verus!
verus! {

/// How many points `s` holds.
pub open spec fn dot_count(s: Seq<char>) -> nat
    decreases s.len(),
{
    if s.len() == 0 {
        0
    } else {
        dot_count(s.drop_last()) + if s.last() == '.' {
            1nat
        } else {
            0nat
        }
    }
}

/// The value of a string of ASCII digits.
pub open spec fn digits_value(s: Seq<char>) -> int
    decreases s.len(),
{
    if s.len() == 0 {
        0
    } else {
        digits_value(s.drop_last()) * 10 + (s.last() as u32 - 48)
    }
}

/// A numeral that starts with a minus sign.
pub open spec fn negative(raw: Seq<char>) -> bool {
    raw.len() > 0 && raw[0] == '-'
}

/// A numeral without its minus sign.
pub open spec fn numeral_body(raw: Seq<char>) -> Seq<char> {
    if negative(raw) {
        raw.skip(1)
    } else {
        raw
    }
}

/// A numeral as the lexer cuts it: an optional minus sign, then digits and
/// points with at least one digit.
pub open spec fn numeral_shape(raw: Seq<char>) -> bool {
    let body = numeral_body(raw);
    &&& forall|k: int| 0 <= k < body.len() ==> digit(#[trigger] body[k]) || body[k] == '.'
    &&& dot_count(body) < body.len()
}

/// The integer a numeral without points spells.
pub open spec fn int_value(raw: Seq<char>) -> int {
    if negative(raw) {
        -digits_value(numeral_body(raw))
    } else {
        digits_value(numeral_body(raw))
    }
}

/// What a numeral is: an `i64` when it has no point and fits; otherwise a
/// real when it has at most one point (std's `f64` parser reads every such
/// numeral); otherwise not a number, with this message.
pub open spec fn spec_number(raw: Seq<char>) -> Result<NumModel, Seq<char>> {
    let body = numeral_body(raw);
    if dot_count(body) == 0 && i64::MIN <= int_value(raw) <= i64::MAX {
        Ok(NumModel::Int(int_value(raw)))
    } else if dot_count(body) <= 1 {
        Ok(NumModel::Float(raw))
    } else {
        Err("숫자가 아님: "@ + raw)
    }
}

proof fn lemma_numeral_step(body: Seq<char>, k: int)
    requires
        0 <= k < body.len(),
    ensures
        digits_value(body.take(k + 1)) == digits_value(body.take(k)) * 10 + (body[k] as u32 - 48),
        dot_count(body.take(k + 1)) == dot_count(body.take(k)) + if body[k] == '.' {
            1nat
        } else {
            0nat
        },
{
    assert(body.take(k + 1).drop_last() == body.take(k));
}

const LIMIT: u128 = 0x8000_0000_0000_0000;

fn number(raw: &str) -> (found: Result<Num, String>)
    requires
        numeral_shape(raw@),
    ensures
        match found {
            Ok(num) => spec_number(raw@) == Ok::<NumModel, Seq<char>>(num@),
            Err(message) => spec_number(raw@) == Err::<NumModel, Seq<char>>(message@),
        },
{
    let letters = chars_of(raw);
    let start: usize = if letters.len() > 0 && letters[0] == '-' {
        1
    } else {
        0
    };
    let ghost body = numeral_body(raw@);
    assert(body == letters@.skip(start as int));
    let mut dots: usize = 0;
    let mut value: u128 = 0;
    let mut big = false;
    let mut at = start;
    assert(body.take(0) == Seq::<char>::empty());
    while at < letters.len()
        invariant
            start <= at <= letters@.len(),
            start <= 1,
            letters@ == raw@,
            body == letters@.skip(start as int),
            numeral_shape(raw@),
            body == numeral_body(raw@),
            dots == dot_count(body.take(at - start)),
            dots <= at - start,
            dots == 0 && !big ==> value == digits_value(body.take(at - start)) && value <= LIMIT,
            dots == 0 && big ==> digits_value(body.take(at - start)) > LIMIT,
        decreases letters@.len() - at,
    {
        let ch = letters[at];
        let ghost k = at - start;
        proof {
            lemma_numeral_step(body, k);
        }
        assert(body[k] == ch);
        if ch == '.' {
            dots += 1;
        } else if dots > 0 {
        } else if !big {
            assert(digit(body[k]));
            let d = (ch as u32 - 48) as u128;
            value = value * 10 + d;
            if value > LIMIT {
                big = true;
            }
        } else {
            assert(digit(body[k]));
        }
        at += 1;
    }
    assert(body.take(body.len() as int) == body);
    if dots == 0 && !big {
        if start == 1 {
            if value == LIMIT {
                return Ok(Num::Int(i64::MIN));
            }
            return Ok(Num::Int(-(value as i64)));
        } else if value < LIMIT {
            return Ok(Num::Int(value as i64));
        }
    }
    if dots <= 1 {
        Ok(Num::Float(owned(raw)))
    } else {
        Err(msg::not_number(raw))
    }
}

/// A word that is a number: digits with at most one point.
pub open spec fn numeric_word(s: Seq<char>) -> bool {
    &&& forall|k: int| 0 <= k < s.len() ==> digit(#[trigger] s[k]) || s[k] == '.'
    &&& dot_count(s) <= 1
    &&& dot_count(s) < s.len()
}

fn is_number(text: &str) -> (found: bool)
    ensures
        found == numeric_word(text@),
{
    let letters = chars_of(text);
    let mut dots: usize = 0;
    let mut at: usize = 0;
    assert(text@.take(0) == Seq::<char>::empty());
    while at < letters.len()
        invariant
            at <= letters@.len(),
            letters@ == text@,
            dots == dot_count(text@.take(at as int)),
            dots <= at,
            forall|k: int| 0 <= k < at ==> digit(#[trigger] text@[k]) || text@[k] == '.',
        decreases letters@.len() - at,
    {
        let ch = letters[at];
        assert(text@.take(at + 1).drop_last() == text@.take(at as int));
        if ch == '.' {
            dots += 1;
        } else if !is_digit(ch) {
            return false;
        }
        at += 1;
    }
    assert(text@.take(text@.len() as int) == text@);
    dots <= 1 && dots < letters.len()
}

pub open spec fn spec_unescape(ch: char) -> char {
    if ch == 'n' {
        '\n'
    } else if ch == 't' {
        '\t'
    } else {
        ch
    }
}

fn unescape(ch: char) -> (found: char)
    ensures
        found == spec_unescape(ch),
{
    match ch {
        'n' => '\n',
        't' => '\t',
        other => other,
    }
}

/// Where the brace open to `depth` levels at `at` closes.
pub open spec fn brace_close(chars: Seq<char>, at: int, depth: int) -> Option<int>
    decreases chars.len() - at,
{
    if at >= chars.len() {
        None
    } else if chars[at] == '{' {
        brace_close(chars, at + 1, depth + 1)
    } else if chars[at] == '}' {
        if depth == 1 {
            Some(at)
        } else {
            brace_close(chars, at + 1, depth - 1)
        }
    } else {
        brace_close(chars, at + 1, depth)
    }
}

pub proof fn lemma_brace_close(chars: Seq<char>, at: int, depth: int)
    ensures
        brace_close(chars, at, depth) matches Some(close) ==> at <= close < chars.len(),
    decreases chars.len() - at,
{
    if at < chars.len() {
        if chars[at] == '{' {
            lemma_brace_close(chars, at + 1, depth + 1);
        } else if chars[at] == '}' {
            if depth != 1 {
                lemma_brace_close(chars, at + 1, depth - 1);
            }
        } else {
            lemma_brace_close(chars, at + 1, depth);
        }
    }
}

/// Where the brace at `open` closes, braces nesting.
fn matching_brace(chars: &Vec<char>, open: usize) -> (found: Option<usize>)
    requires
        open < chars@.len(),
    ensures
        match found {
            Some(close) => brace_close(chars@, open + 1, 1) == Some(close as int),
            None => brace_close(chars@, open + 1, 1) is None,
        },
{
    let len = chars.len();
    let mut depth: usize = 1;
    let mut at = open + 1;
    while at < chars.len()
        invariant
            open < at <= chars@.len(),
            1 <= depth <= at - open,
            brace_close(chars@, open + 1, 1) == brace_close(chars@, at as int, depth as int),
        decreases chars@.len() - at,
    {
        let ch = chars[at];
        if ch == '{' {
            depth += 1;
        } else if ch == '}' {
            if depth == 1 {
                return Some(at);
            }
            depth -= 1;
        }
        at += 1;
    }
    None
}

} // verus!
verus! {

/// Where the white space that goes on at `i` in `s` ends.
pub open spec fn white_run(s: Seq<char>, i: int) -> int
    decreases s.len() - i,
{
    if i < s.len() && white_space(s[i]) {
        white_run(s, i + 1)
    } else {
        i
    }
}

/// Where the white space that ends `s[..i]` starts, looking no further back
/// than `low`.
pub open spec fn white_back(s: Seq<char>, low: int, i: int) -> int
    decreases i - low,
{
    if i > low && white_space(s[i - 1]) {
        white_back(s, low, i - 1)
    } else {
        i
    }
}

/// `s` without white space at either end.
pub open spec fn trimmed(s: Seq<char>) -> Seq<char> {
    let lead = white_run(s, 0);
    s.subrange(lead, white_back(s, lead, s.len() as int))
}

/// `parts` with the text `text` added, unless it is empty.
pub open spec fn with_text(parts: Seq<PartModel>, text: Seq<char>) -> Seq<PartModel> {
    if text.len() == 0 {
        parts
    } else {
        parts.push(PartModel::Text(text))
    }
}

/// Reading a string literal opened at `start`, from `j` on, with `text`
/// read since the last embedded expression and the template `parts` so far
/// (`embedded`: whether there was an embedded expression). The result is
/// the token and where the literal ends, or the error.
pub open spec fn string_from(
    chars: Seq<char>,
    start: int,
    j: int,
    line: usize,
    text: Seq<char>,
    parts: Seq<PartModel>,
    embedded: bool,
) -> Result<(TokModel, int), Fault>
    decreases chars.len() - j,
{
    if j >= chars.len() {
        Err((msg::QUOTE_OPEN@, span_at(line, start, start + 1)))
    } else if chars[j] == '"' {
        if embedded {
            Ok((TokModel::Template(with_text(parts, text)), j + 1))
        } else {
            Ok((TokModel::Str(text), j + 1))
        }
    } else if chars[j] == '\\' && j + 1 < chars.len() {
        string_from(chars, start, j + 2, line, text.push(spec_unescape(chars[j + 1])), parts, embedded)
    } else if chars[j] != '{' {
        string_from(chars, start, j + 1, line, text.push(chars[j]), parts, embedded)
    } else {
        match brace_close(chars, j + 1, 1) {
            None => Err((msg::BRACE_OPEN@, span_at(line, j, j + 1))),
            Some(close) => {
                let raw = chars.subrange(j + 1, close);
                let inner = trimmed(raw);
                if inner.len() == 0 {
                    Err((msg::BRACE_EMPTY@, span_at(line, j, close + 1)))
                } else {
                    let offset = j + 1 + white_run(raw, 0);
                    let expr = PartModel::Expr(inner, span_at(line, offset, offset + inner.len()));
                    proof {
                        lemma_brace_close(chars, j + 1, 1);
                    }
                    string_from(chars, start, close + 1, line, seq![], with_text(parts, text).push(expr), true)
                }
            },
        }
    }
}

/// The string literal opened at `start`: its token and where it ends.
pub open spec fn spec_scan_string(chars: Seq<char>, start: int, line: usize) -> Result<(TokModel, int), Fault> {
    string_from(chars, start, start + 1, line, seq![], seq![], false)
}

proof fn lemma_white_run(s: Seq<char>, i: int)
    requires
        0 <= i <= s.len(),
    ensures
        i <= white_run(s, i) <= s.len(),
    decreases s.len() - i,
{
    if i < s.len() && white_space(s[i]) {
        lemma_white_run(s, i + 1);
    }
}

proof fn lemma_white_back(s: Seq<char>, low: int, i: int)
    requires
        low <= i,
    ensures
        low <= white_back(s, low, i) <= i,
    decreases i - low,
{
    if i > low && white_space(s[i - 1]) {
        lemma_white_back(s, low, i - 1);
    }
}

/// The embedded expression between the braces at `open` and `close`:
/// where its trimmed text starts and ends.
fn trim_bounds(chars: &Vec<char>, open: usize, close: usize) -> (bounds: (usize, usize))
    requires
        open < close <= chars@.len(),
    ensures
        ({
            let raw = chars@.subrange(open + 1, close as int);
            let lead = white_run(raw, 0);
            &&& bounds.0 == open + 1 + lead
            &&& bounds.1 == open + 1 + white_back(raw, lead, raw.len() as int)
            &&& open + 1 <= bounds.0 <= bounds.1 <= close
        }),
{
    let ghost raw = chars@.subrange(open + 1, close as int);
    let mut lead = open + 1;
    while lead < close && is_whitespace(chars[lead])
        invariant
            open + 1 <= lead <= close <= chars@.len(),
            raw == chars@.subrange(open + 1, close as int),
            white_run(raw, 0) == white_run(raw, lead - (open + 1)),
        decreases close - lead,
    {
        assert(raw[lead - (open + 1)] == chars@[lead as int]);
        lead += 1;
    }
    assert(lead < close ==> raw[lead - (open + 1)] == chars@[lead as int]);
    let ghost low = lead - (open + 1);
    let mut tail = close;
    while tail > lead && is_whitespace(chars[tail - 1])
        invariant
            open + 1 <= lead <= tail <= close <= chars@.len(),
            raw == chars@.subrange(open + 1, close as int),
            low == lead - (open + 1),
            white_back(raw, low, raw.len() as int) == white_back(raw, low, tail - (open + 1)),
        decreases tail - lead,
    {
        assert(raw[tail - 1 - (open + 1)] == chars@[tail - 1]);
        tail -= 1;
    }
    assert(tail > lead ==> raw[tail - 1 - (open + 1)] == chars@[tail - 1]);
    (lead, tail)
}

/// Reads the string literal opened at `start`.
fn scan_string(chars: &Vec<char>, start: usize, line: usize) -> (found: Result<(Token, usize), Diag>)
    requires
        start < chars@.len(),
    ensures
        match found {
            Ok((token, next)) => {
                &&& spec_scan_string(chars@, start as int, line) == Ok::<(TokModel, int), Fault>(
                    (token.tok@, next as int),
                )
                &&& token.span == span_at(line, start as int, next as int)
                &&& start < next <= chars@.len()
            },
            Err(diag) => {
                &&& diag.kind == msg::LEX
                &&& diag.hint is None
                &&& diag.unit is None
                &&& spec_scan_string(chars@, start as int, line) == Err::<(TokModel, int), Fault>(
                    (diag.msg@, diag.span),
                )
            },
        },
{
    let len = chars.len();
    let mut text = String::new();
    let mut parts: Vec<Part> = Vec::new();
    let mut embedded = false;
    let mut filled = false;
    let mut j = start + 1;
    assert(text@ == Seq::<char>::empty());
    assert(parts_view(parts@) == Seq::<PartModel>::empty());
    loop
        invariant
            start < j <= len,
            len == chars@.len(),
            spec_scan_string(chars@, start as int, line) == string_from(
                chars@,
                start as int,
                j as int,
                line,
                text@,
                parts_view(parts@),
                embedded,
            ),
            filled == (text@.len() > 0),
        decreases len - j,
    {
        if j >= len {
            return Err(Diag::lex(owned(msg::QUOTE_OPEN), Span::new(line, start, start + 1)));
        }
        let ch = chars[j];
        if ch == '"' {
            let tok = if embedded {
                let ghost before = parts_view(parts@);
                if filled {
                    parts.push(Part::Text(text));
                    assert(parts_view(parts@) == before.push(PartModel::Text(text@)));
                } else {
                    assert(parts_view(parts@) == before);
                }
                Tok::Template(parts)
            } else {
                Tok::Str(text)
            };
            return Ok((Token::new(tok, line, start, j + 1), j + 1));
        }
        if ch == '\\' && j + 1 < len {
            push_char(&mut text, unescape(chars[j + 1]));
            filled = true;
            j += 2;
            continue;
        }
        if ch != '{' {
            push_char(&mut text, ch);
            filled = true;
            j += 1;
            continue;
        }
        let close = match matching_brace(chars, j) {
            Some(close) => close,
            None => {
                return Err(Diag::lex(owned(msg::BRACE_OPEN), Span::new(line, j, j + 1)));
            },
        };
        proof {
            lemma_brace_close(chars@, j + 1, 1);
        }
        let (from, to) = trim_bounds(chars, j, close);
        let ghost raw = chars@.subrange(j + 1, close as int);
        assert(trimmed(raw) == chars@.subrange(from as int, to as int));
        if from == to {
            return Err(Diag::lex(owned(msg::BRACE_EMPTY), Span::new(line, j, close + 1)));
        }
        let inner = string_of(chars.as_slice(), from, to);
        let ghost before = parts_view(parts@);
        if filled {
            parts.push(Part::Text(text));
            assert(parts_view(parts@) == before.push(PartModel::Text(text@)));
        } else {
            assert(parts_view(parts@) == before);
        }
        let ghost middle = parts_view(parts@);
        parts.push(Part::Expr { source: inner, span: Span::new(line, from, to) });
        assert(parts_view(parts@) == middle.push(
            PartModel::Expr(trimmed(raw), span_at(line, from as int, from + trimmed(raw).len())),
        ));
        text = String::new();
        filled = false;
        embedded = true;
        j = close + 1;
        assert(text@ == Seq::<char>::empty());
    }
}

} // verus!
verus! {

/// The first entry of `table` whose form ends `chunk` with something before it.
pub open spec fn first_fit(table: Seq<(Seq<char>, Ending)>, chunk: Seq<char>) -> Option<(Seq<char>, Ending)>
    decreases table.len(),
{
    if table.len() == 0 {
        None
    } else if crate::words::ends_with_form(chunk, table[0].0) {
        Some(table[0])
    } else {
        first_fit(table.drop_first(), chunk)
    }
}

proof fn lemma_first_fit(table: Seq<(Seq<char>, Ending)>, chunk: Seq<char>)
    ensures
        first_fit(table, chunk) matches Some(x) ==> crate::words::ends_with_form(chunk, x.0),
    decreases table.len(),
{
    if table.len() > 0 && !crate::words::ends_with_form(chunk, table[0].0) {
        lemma_first_fit(table.drop_first(), chunk);
    }
}

/// The first entry of `table` whose form is `chunk`.
pub open spec fn first_exact(table: Seq<(Seq<char>, Ending)>, chunk: Seq<char>) -> Option<(Seq<char>, Ending)>
    decreases table.len(),
{
    if table.len() == 0 {
        None
    } else if table[0].0 == chunk {
        Some(table[0])
    } else {
        first_exact(table.drop_first(), chunk)
    }
}

/// The first particle of `table` that ends `chunk` with something before it.
pub open spec fn first_fit3(
    table: Seq<(Seq<char>, Seq<char>, Seq<char>)>,
    chunk: Seq<char>,
) -> Option<(Seq<char>, Seq<char>, Seq<char>)>
    decreases table.len(),
{
    if table.len() == 0 {
        None
    } else if crate::words::ends_with_form(chunk, table[0].0) {
        Some(table[0])
    } else {
        first_fit3(table.drop_first(), chunk)
    }
}

/// The particles in the order a word's end is tried against them: longest
/// first.
pub open spec fn particles_longest() -> Seq<(Seq<char>, Seq<char>, Seq<char>)> {
    crate::words::longest_first(
        crate::words::particle_table(),
        crate::words::max_length(crate::words::particle_table()),
    )
}

/// The conjugated forms of the built-in verbs.
pub open spec fn builtin_view() -> Seq<Form> {
    crate::words::absorb(crate::words::forms_of_verbs(crate::words::builtin_table()))
}

/// `head` is a keyword followed by the copula form `form`.
pub open spec fn strips_to_keyword(head: Seq<char>, form: Seq<char>) -> bool {
    &&& form.len() <= head.len()
    &&& head.skip(head.len() - form.len()) == form
    &&& crate::words::keyword_table().contains(head.take(head.len() - form.len()))
}

/// `head` is a keyword followed by some form of the copula.
pub open spec fn keyword_before_copula(head: Seq<char>) -> bool {
    exists|i: int|
        0 <= i < crate::words::copula_table().len() && #[trigger] strips_to_keyword(
            head,
            crate::words::copula_table()[i].0,
        )
}

/// A comparison word.
pub open spec fn comparative_word(chunk: Seq<char>) -> bool {
    exists|i: int|
        0 <= i < crate::words::comparative_table().len()
            && #[trigger] crate::words::comparative_table()[i].0 == chunk
}

/// One token for the whole word.
pub open spec fn whole(tok: TokModel, line: usize, col: int, end: int) -> Result<Seq<TokenModel>, Fault> {
    Ok(seq![token_at(tok, line, col, end)])
}

/// The tokens of `head`, then `tok` after them.
pub open spec fn then_token(
    head: Result<Seq<TokenModel>, Fault>,
    tok: TokModel,
    line: usize,
    col: int,
    end: int,
) -> Result<Seq<TokenModel>, Fault> {
    match head {
        Ok(found) => Ok(found.push(token_at(tok, line, col, end))),
        Err(fault) => Err(fault),
    }
}

proof fn lemma_of_length_member<A, B>(table: Seq<(Seq<char>, A, B)>, n: nat)
    ensures
        forall|x: (Seq<char>, A, B)|
            #[trigger] crate::words::of_length(table, n).contains(x) ==> table.contains(x),
    decreases table.len(),
{
    if table.len() > 0 {
        lemma_of_length_member(table.drop_last(), n);
        let rest = crate::words::of_length(table.drop_last(), n);
        assert forall|x: (Seq<char>, A, B)|
            #[trigger] crate::words::of_length(table, n).contains(x) implies table.contains(x) by {
            if rest.contains(x) {
                assert(table.drop_last().contains(x));
                let k = choose|k: int| 0 <= k < table.drop_last().len() && table.drop_last()[k] == x;
                assert(table[k] == x);
            } else {
                assert(table[table.len() - 1] == x);
            }
        }
    }
}

proof fn lemma_longest_first_member<A, B>(table: Seq<(Seq<char>, A, B)>, longest: nat)
    ensures
        forall|x: (Seq<char>, A, B)|
            #[trigger] crate::words::longest_first(table, longest).contains(x) ==> table.contains(x),
    decreases longest,
{
    lemma_of_length_member(table, longest);
    if longest > 0 {
        lemma_longest_first_member(table, (longest - 1) as nat);
        let a = crate::words::of_length(table, longest);
        let b = crate::words::longest_first(table, (longest - 1) as nat);
        assert forall|x: (Seq<char>, A, B)| #[trigger] (a + b).contains(x) implies table.contains(x) by {
            let i = choose|i: int| 0 <= i < (a + b).len() && (a + b)[i] == x;
            if i < a.len() {
                assert(a[i] == x);
                assert(a.contains(x));
            } else {
                assert(b[i - a.len()] == x);
                assert(b.contains(x));
            }
        }
    }
}

proof fn lemma_first_fit3_member(table: Seq<(Seq<char>, Seq<char>, Seq<char>)>, chunk: Seq<char>)
    ensures
        first_fit3(table, chunk) matches Some(x) ==> table.contains(x) && crate::words::ends_with_form(
            chunk,
            x.0,
        ),
    decreases table.len(),
{
    if table.len() > 0 {
        if crate::words::ends_with_form(chunk, table[0].0) {
            assert(table[0] == table[0]);
        } else {
            lemma_first_fit3_member(table.drop_first(), chunk);
            if let Some(x) = first_fit3(table.drop_first(), chunk) {
                let k = choose|k: int| 0 <= k < table.drop_first().len() && table.drop_first()[k] == x;
                assert(table[k + 1] == x);
            }
        }
    }
}

proof fn lemma_particle_forms_nonempty()
    ensures
        forall|x: (Seq<char>, Seq<char>, Seq<char>)|
            crate::words::particle_table().contains(x) ==> x.0.len() > 0,
{
    reveal_strlit("은");
    reveal_strlit("는");
    reveal_strlit("이");
    reveal_strlit("가");
    reveal_strlit("을");
    reveal_strlit("를");
    reveal_strlit("에서");
    reveal_strlit("에게");
    reveal_strlit("에");
    reveal_strlit("으로");
    reveal_strlit("로");
    reveal_strlit("의");
    reveal_strlit("보다");
    reveal_strlit("마다");
    reveal_strlit("만큼");
    reveal_strlit("씩");
    reveal_strlit("부터");
    reveal_strlit("까지");
    reveal_strlit("와");
    reveal_strlit("과");
    assert forall|x: (Seq<char>, Seq<char>, Seq<char>)|
        crate::words::particle_table().contains(x) implies x.0.len() > 0 by {
        let i = choose|i: int|
            0 <= i < crate::words::particle_table().len() && crate::words::particle_table()[i] == x;
    }
}

/// The particle split off the end of a word is not empty and leaves
/// something before it.
pub proof fn lemma_particle_fit(chunk: Seq<char>)
    ensures
        first_fit3(particles_longest(), chunk) matches Some(x) ==> 0 < x.0.len() < chunk.len()
            && crate::words::ends_with_form(chunk, x.0),
{
    lemma_first_fit3_member(particles_longest(), chunk);
    lemma_longest_first_member(
        crate::words::particle_table(),
        crate::words::max_length(crate::words::particle_table()),
    );
    lemma_particle_forms_nonempty();
}

/// How a word is cut into tokens. In this order: a keyword; a known name
/// or comparison word; a conjugated form of a built-in verb, then of a
/// declared one; a noun followed by a form of 하다 or of 되다; a form of the
/// copula; a word followed by a copula form (when `take_copula`); a
/// particle; a number; and (when `take_particle`) a word followed by a
/// particle, longest particle first, where `부터의` and `까지의` are errors.
/// Anything else is a name. The word stands at `col..end` on `line`.
pub open spec fn spec_split(
    names: Seq<Seq<char>>,
    forms: Seq<Form>,
    chunk: Seq<char>,
    line: usize,
    col: int,
    end: int,
    take_particle: bool,
    take_copula: bool,
) -> Result<Seq<TokenModel>, Fault>
    decreases chunk.len(),
{
    if crate::words::keyword_table().contains(chunk) {
        whole(TokModel::Keyword(chunk), line, col, end)
    } else if crate::words::known(names, chunk) || comparative_word(chunk) {
        whole(TokModel::Name(chunk), line, col, end)
    } else if crate::words::lookup(builtin_view(), chunk) is Some {
        let (name, pos, ending) = crate::words::lookup(builtin_view(), chunk).unwrap();
        whole(TokModel::Verb(name, pos, ending), line, col, end)
    } else if crate::words::lookup(forms, chunk) is Some {
        let (name, pos, ending) = crate::words::lookup(forms, chunk).unwrap();
        whole(TokModel::Verb(name, pos, ending), line, col, end)
    } else if first_fit(crate::words::hada_table(), chunk) is Some {
        let (form, ending) = first_fit(crate::words::hada_table(), chunk).unwrap();
        let head = crate::words::head_before(chunk, form.len());
        whole(TokModel::Verb(head + "하다"@, Pos::Verb, ending), line, col, end)
    } else if first_fit(crate::words::doeda_table(), chunk) is Some {
        let (form, ending) = first_fit(crate::words::doeda_table(), chunk).unwrap();
        let head = crate::words::head_before(chunk, form.len());
        whole(TokModel::Verb(head + "되다"@, Pos::Passive, ending), line, col, end)
    } else if first_exact(crate::words::copula_table(), chunk) is Some {
        whole(TokModel::Copula(first_exact(crate::words::copula_table(), chunk).unwrap().1), line, col, end)
    } else if take_copula && crate::words::spec_copula_suffix(chunk, names) is Some {
        let (form, ending) = crate::words::spec_copula_suffix(chunk, names).unwrap();
        let cut = end - form.len();
        let head = crate::words::head_before(chunk, form.len());
        proof {
            crate::words::lemma_copula_suffix_fits(chunk, names);
        }
        then_token(
            spec_split(names, forms, head, line, col, cut, take_particle, keyword_before_copula(head)),
            TokModel::Copula(ending),
            line,
            cut,
            end,
        )
    } else if crate::words::spec_particle(chunk) is Some {
        let (role, canon) = crate::words::spec_particle(chunk).unwrap();
        whole(TokModel::Particle(role, canon), line, col, end)
    } else if numeric_word(chunk) {
        match spec_number(chunk) {
            Ok(num) => whole(TokModel::Number(num), line, col, end),
            Err(message) => Err((message, span_at(line, col, end))),
        }
    } else if take_particle && crate::words::ends_with_form(chunk, "부터의"@) {
        Err((msg::RANGE_GENITIVE@, span_at(line, end - "부터의"@.len(), end)))
    } else if take_particle && crate::words::ends_with_form(chunk, "까지의"@) {
        Err((msg::RANGE_GENITIVE@, span_at(line, end - "까지의"@.len(), end)))
    } else if take_particle && first_fit3(particles_longest(), chunk) is Some {
        let (form, role, canon) = first_fit3(particles_longest(), chunk).unwrap();
        let cut = end - form.len();
        let head = crate::words::head_before(chunk, form.len());
        proof {
            lemma_particle_fit(chunk);
        }
        then_token(
            spec_split(names, forms, head, line, col, cut, false, take_copula),
            TokModel::Particle(role, canon),
            line,
            cut,
            end,
        )
    } else {
        whole(TokModel::Name(chunk), line, col, end)
    }
}

} // verus!
verus! {

/// The first entry of `table` whose form ends `letters` with something
/// before it.
fn fit_first(table: &Vec<(&'static str, Ending)>, letters: &Vec<char>) -> (found: Option<(&'static str, Ending)>)
    ensures
        match found {
            Some((form, ending)) => first_fit(crate::words::pair_view(table@), letters@) == Some(
                (form@, ending),
            ),
            None => first_fit(crate::words::pair_view(table@), letters@) is None,
        },
{
    let ghost all = crate::words::pair_view(table@);
    let mut at: usize = 0;
    assert(all.skip(0) == all);
    while at < table.len()
        invariant
            at <= table@.len(),
            all == crate::words::pair_view(table@),
            first_fit(all, letters@) == first_fit(all.skip(at as int), letters@),
        decreases table@.len() - at,
    {
        let (form, ending) = table[at];
        assert(all.skip(at as int)[0] == (form@, ending));
        assert(all.skip(at as int).drop_first() == all.skip(at + 1));
        if crate::words::ends_with(letters, &chars_of(form)) {
            return Some((form, ending));
        }
        at += 1;
    }
    None
}

/// The first entry of `table` whose form is `chunk`.
fn exact_first(table: &Vec<(&'static str, Ending)>, chunk: &str) -> (found: Option<(&'static str, Ending)>)
    ensures
        match found {
            Some((form, ending)) => first_exact(crate::words::pair_view(table@), chunk@) == Some(
                (form@, ending),
            ),
            None => first_exact(crate::words::pair_view(table@), chunk@) is None,
        },
{
    let ghost all = crate::words::pair_view(table@);
    let mut at: usize = 0;
    assert(all.skip(0) == all);
    while at < table.len()
        invariant
            at <= table@.len(),
            all == crate::words::pair_view(table@),
            first_exact(all, chunk@) == first_exact(all.skip(at as int), chunk@),
        decreases table@.len() - at,
    {
        let (form, ending) = table[at];
        assert(all.skip(at as int)[0] == (form@, ending));
        assert(all.skip(at as int).drop_first() == all.skip(at + 1));
        if crate::chars::same_text(form, chunk) {
            return Some((form, ending));
        }
        at += 1;
    }
    None
}

/// Where in `list` the first particle stands that ends `letters` with
/// something before it.
fn particle_fit(list: &Vec<(String, &'static str, &'static str)>, letters: &Vec<char>) -> (found: Option<usize>)
    ensures
        match found {
            Some(i) => i < list@.len() && first_fit3(crate::words::owned_triple_view(list@), letters@)
                == Some(crate::words::owned_triple_view(list@)[i as int]),
            None => first_fit3(crate::words::owned_triple_view(list@), letters@) is None,
        },
{
    let ghost all = crate::words::owned_triple_view(list@);
    let mut at: usize = 0;
    assert(all.skip(0) == all);
    while at < list.len()
        invariant
            at <= list@.len(),
            all == crate::words::owned_triple_view(list@),
            first_fit3(all, letters@) == first_fit3(all.skip(at as int), letters@),
        decreases list@.len() - at,
    {
        assert(all.skip(at as int)[0] == all[at as int]);
        assert(all.skip(at as int).drop_first() == all.skip(at + 1));
        if crate::words::ends_with(letters, &chars_of(list[at].0.as_str())) {
            return Some(at);
        }
        at += 1;
    }
    None
}

/// Whether `form` ends `chunk` (possibly all of it).
fn has_suffix(chunk: &Vec<char>, form: &Vec<char>) -> (found: bool)
    ensures
        found == (form@.len() <= chunk@.len() && chunk@.skip(chunk@.len() - form@.len()) == form@),
{
    if form.len() > chunk.len() {
        return false;
    }
    let shift = chunk.len() - form.len();
    let mut at: usize = 0;
    while at < form.len()
        invariant
            at <= form@.len(),
            shift + form@.len() == chunk@.len(),
            chunk@.len() <= usize::MAX,
            forall|j: int| 0 <= j < at ==> chunk@[shift + j] == form@[j],
        decreases form@.len() - at,
    {
        if chunk[shift + at] != form[at] {
            assert(chunk@.skip(shift as int)[at as int] != form@[at as int]);
            return false;
        }
        at += 1;
    }
    assert(chunk@.skip(shift as int) =~= form@);
    true
}

/// Whether `head` is a keyword followed by a form of the copula.
fn keyword_tail(head: &Vec<char>) -> (found: bool)
    ensures
        found == keyword_before_copula(head@),
{
    let table = crate::words::copula_forms();
    let ghost all = crate::words::pair_view(table@);
    let mut at: usize = 0;
    while at < table.len()
        invariant
            at <= table@.len(),
            all == crate::words::pair_view(table@),
            all == crate::words::copula_table(),
            forall|i: int| 0 <= i < at ==> !strips_to_keyword(head@, #[trigger] all[i].0),
        decreases table@.len() - at,
    {
        let (form, _) = table[at];
        let letters = chars_of(form);
        assert(all[at as int].0 == form@);
        if has_suffix(head, &letters) {
            let rest = string_of(head.as_slice(), 0, head.len() - letters.len());
            assert(rest@ == head@.take(head@.len() - form@.len()));
            if crate::words::is_keyword(rest.as_str()) {
                assert(strips_to_keyword(head@, all[at as int].0));
                return true;
            }
        }
        at += 1;
    }
    false
}

/// The conjugated forms of the built-in verbs, complete.
pub struct VerbForms {
    table: FormTable,
}

impl VerbForms {
    #[verifier::type_invariant]
    spec fn complete(self) -> bool {
        self.table@ == builtin_view()
    }
}

/// What the lexer knows of a program before reading it: the names it
/// declares, the stems of the verbs it defines, and the forms of those
/// verbs and of the built-in ones.
pub struct Vocabulary {
    pub names: Vec<String>,
    pub stems: Vec<String>,
    pub forms: FormTable,
    pub verbs: VerbForms,
}

impl Vocabulary {
    /// The conjugated forms of the declared verbs.
    pub open spec fn declared(&self) -> Seq<Form> {
        self.forms@
    }

    pub fn new(names: Vec<String>, stems: Vec<String>) -> (made: Vocabulary)
        ensures
            made.names == names,
            made.stems == stems,
            made.declared() == crate::words::absorb(
                crate::words::forms_of_stems(crate::order::sorted_texts(crate::words::string_view(stems@))),
            ),
    {
        let forms = crate::words::stem_forms(&stems);
        let verbs = VerbForms { table: crate::words::builtin_forms() };
        Vocabulary { names, stems, forms, verbs }
    }

    /// The verb whose conjugated form `word` is: a built-in verb before a
    /// declared one. (A name that is also such a form hides the verb in the
    /// whole file, as names are tried first.)
    pub fn verb_named(&self, word: &str) -> (found: Option<String>)
        ensures
            match found {
                Some(name) => match crate::words::lookup(builtin_view(), word@) {
                    Some(verb) => name@ == verb.0,
                    None => crate::words::lookup(self.declared(), word@) matches Some(verb) && name@ == verb.0,
                },
                None => crate::words::lookup(builtin_view(), word@) is None && crate::words::lookup(
                    self.declared(),
                    word@,
                ) is None,
            },
    {
        proof {
            use_type_invariant(&self.verbs);
        }
        match self.verbs.table.get(word) {
            Some((name, _, _)) => Some(name),
            None => match self.forms.get(word) {
                Some((name, _, _)) => Some(name),
                None => None,
            },
        }
    }
}

impl Default for Vocabulary {
    fn default() -> (made: Vocabulary)
        ensures
            made.names@ == Seq::<String>::empty(),
            made.stems@ == Seq::<String>::empty(),
            made.declared() == Seq::<Form>::empty(),
    {
        let made = Vocabulary::new(Vec::new(), Vec::new());
        proof {
            broadcast use vstd::seq_lib::group_to_multiset_ensures;

            let none = Seq::<Seq<char>>::empty();
            assert(crate::words::string_view(made.stems@) =~= none);
            assert(vstd::relations::sorted_by(none, crate::order::text_order()));
            let sorted = crate::order::sorted_texts(none);
            assert(sorted.to_multiset().len() == 0);
            assert(sorted =~= none);
        }
        made
    }
}

} // verus!
verus! {

struct Lexer<'a> {
    vocab: &'a Vocabulary,
}

/// What a word may still lose at its end: a particle, a copula form.
#[derive(Clone, Copy)]
struct Splitting {
    take_particle: bool,
    take_copula: bool,
}

/// One token for the whole word.
fn one(tok: Tok, line: usize, col: usize, end: usize) -> (found: Result<Vec<Token>, Diag>)
    ensures
        lexed(found, whole(tok@, line, col as int, end as int)),
{
    let token = Token::new(tok, line, col, end);
    let out = vec![token];
    assert(tokens_view(out@) =~= seq![token_at(tok@, line, col as int, end as int)]);
    Ok(out)
}

/// The tokens of a word's head, then one more token.
fn then(head: Result<Vec<Token>, Diag>, tok: Tok, line: usize, col: usize, end: usize) -> (found: Result<Vec<Token>, Diag>)
    ensures
        forall|expected: Result<Seq<TokenModel>, Fault>|
            lexed(head, expected) ==> lexed(found, then_token(expected, tok@, line, col as int, end as int)),
{
    match head {
        Ok(mut out) => {
            let ghost before = tokens_view(out@);
            out.push(Token::new(tok, line, col, end));
            assert(tokens_view(out@) =~= before.push(token_at(tok@, line, col as int, end as int)));
            Ok(out)
        },
        Err(diag) => Err(diag),
    }
}

impl<'a> Lexer<'a> {
    fn knows(&self, word: &str) -> (found: bool)
        ensures
            found == crate::words::known(crate::words::string_view(self.vocab.names@), word@),
    {
        crate::words::knows(&self.vocab.names, word)
    }

    /// Cuts the word `chunk` at `col..end` on `line` into tokens.
    #[verifier::rlimit(40)]
    fn split_word(&self, chunk: &str, line: usize, col: usize, end: usize, splitting: Splitting) -> (found: Result<
        Vec<Token>,
        Diag,
    >)
        requires
            col + chunk@.len() == end,
        ensures
            lexed(
                found,
                spec_split(
                    crate::words::string_view(self.vocab.names@),
                    self.vocab.declared(),
                    chunk@,
                    line,
                    col as int,
                    end as int,
                    splitting.take_particle,
                    splitting.take_copula,
                ),
            ),
        decreases chunk@.len(),
    {
        proof {
            use_type_invariant(&self.vocab.verbs);
        }
        let ghost names = crate::words::string_view(self.vocab.names@);
        let ghost forms = self.vocab.declared();
        if crate::words::is_keyword(chunk) {
            return one(Tok::Keyword(owned(chunk)), line, col, end);
        }
        if self.knows(chunk) || crate::words::is_comparative(chunk) {
            return one(Tok::Name(owned(chunk)), line, col, end);
        }
        match self.vocab.verbs.table.get(chunk) {
            Some((name, pos, ending)) => {
                return one(Tok::Verb { name, pos, ending }, line, col, end);
            },
            None => {},
        }
        match self.vocab.forms.get(chunk) {
            Some((name, pos, ending)) => {
                return one(Tok::Verb { name, pos, ending }, line, col, end);
            },
            None => {},
        }
        let letters = chars_of(chunk);
        proof {
            lemma_first_fit(crate::words::hada_table(), chunk@);
            lemma_first_fit(crate::words::doeda_table(), chunk@);
        }
        match fit_first(&crate::words::hada_forms(), &letters) {
            Some((form, ending)) => {
                let mut name = string_of(letters.as_slice(), 0, letters.len() - crate::words::char_count(form));
                crate::chars::push_str(&mut name, "하다");
                return one(Tok::Verb { name, pos: Pos::Verb, ending }, line, col, end);
            },
            None => {},
        }
        match fit_first(&crate::words::doeda_forms(), &letters) {
            Some((form, ending)) => {
                let mut name = string_of(letters.as_slice(), 0, letters.len() - crate::words::char_count(form));
                crate::chars::push_str(&mut name, "되다");
                return one(Tok::Verb { name, pos: Pos::Passive, ending }, line, col, end);
            },
            None => {},
        }
        match exact_first(&crate::words::copula_forms(), chunk) {
            Some((_, ending)) => {
                return one(Tok::Copula { ending }, line, col, end);
            },
            None => {},
        }
        if splitting.take_copula {
            match crate::words::copula_suffix(chunk, &self.vocab.names) {
                Some((form, ending)) => {
                    proof {
                        crate::words::lemma_copula_suffix_fits(chunk@, names);
                    }
                    let size = crate::words::char_count(form);
                    let cut = end - size;
                    let head = string_of(letters.as_slice(), 0, letters.len() - size);
                    let head_letters = chars_of(head.as_str());
                    let again = keyword_tail(&head_letters);
                    let rest = Splitting { take_particle: splitting.take_particle, take_copula: again };
                    let found = self.split_word(head.as_str(), line, col, cut, rest);
                    return then(found, Tok::Copula { ending }, line, cut, end);
                },
                None => {},
            }
        }
        match crate::words::particle(chunk) {
            Some((role, canon)) => {
                return one(Tok::Particle { role, canon }, line, col, end);
            },
            None => {},
        }
        if is_number(chunk) {
            return match number(chunk) {
                Ok(num) => one(Tok::Number(num), line, col, end),
                Err(message) => Err(Diag::lex(message, Span::new(line, col, end))),
            };
        }
        if splitting.take_particle {
            proof {
                reveal_strlit("부터의");
                reveal_strlit("까지의");
            }
            if crate::words::ends_with(&letters, &chars_of("부터의")) {
                return Err(Diag::lex(owned(msg::RANGE_GENITIVE), Span::new(line, end - 3, end)));
            }
            if crate::words::ends_with(&letters, &chars_of("까지의")) {
                return Err(Diag::lex(owned(msg::RANGE_GENITIVE), Span::new(line, end - 3, end)));
            }
            let list = crate::words::particles_by_length();
            match particle_fit(&list, &letters) {
                Some(i) => {
                    proof {
                        lemma_particle_fit(chunk@);
                    }
                    let (form, role, canon) = (&list[i].0, list[i].1, list[i].2);
                    let size = crate::words::char_count(form.as_str());
                    let cut = end - size;
                    let head = string_of(letters.as_slice(), 0, letters.len() - size);
                    let rest = Splitting { take_particle: false, take_copula: splitting.take_copula };
                    let found = self.split_word(head.as_str(), line, col, cut, rest);
                    return then(found, Tok::Particle { role, canon }, line, cut, end);
                },
                None => {},
            }
        }
        one(Tok::Name(owned(chunk)), line, col, end)
    }
}

} // verus!
verus! {

/// The tokens of `first` and then those of `rest`, or the first error.
pub open spec fn joined(
    first: Result<Seq<TokenModel>, Fault>,
    rest: Result<Seq<TokenModel>, Fault>,
) -> Result<Seq<TokenModel>, Fault> {
    match first {
        Err(fault) => Err(fault),
        Ok(a) => match rest {
            Err(fault) => Err(fault),
            Ok(b) => Ok(a + b),
        },
    }
}

proof fn lemma_joined_step(a: Seq<TokenModel>, b: Seq<TokenModel>, rest: Result<Seq<TokenModel>, Fault>)
    ensures
        joined(Ok(a), joined(Ok(b), rest)) == joined(Ok(a + b), rest),
{
    if let Ok(c) = rest {
        assert(a + (b + c) =~= (a + b) + c);
    }
}

pub proof fn lemma_string_end(
    chars: Seq<char>,
    start: int,
    j: int,
    line: usize,
    text: Seq<char>,
    parts: Seq<PartModel>,
    embedded: bool,
)
    ensures
        string_from(chars, start, j, line, text, parts, embedded) matches Ok((tok, next)) ==> j < next
            <= chars.len() && (tok is Str || tok is Template),
    decreases chars.len() - j,
{
    if j < chars.len() && chars[j] != '"' {
        if chars[j] == '\\' && j + 1 < chars.len() {
            lemma_string_end(chars, start, j + 2, line, text.push(spec_unescape(chars[j + 1])), parts, embedded);
        } else if chars[j] != '{' {
            lemma_string_end(chars, start, j + 1, line, text.push(chars[j]), parts, embedded);
        } else {
            lemma_brace_close(chars, j + 1, 1);
            if let Some(close) = brace_close(chars, j + 1, 1) {
                let raw = chars.subrange(j + 1, close);
                let inner = trimmed(raw);
                let offset = j + 1 + white_run(raw, 0);
                let expr = PartModel::Expr(inner, span_at(line, offset, offset + inner.len()));
                lemma_string_end(chars, start, close + 1, line, seq![], with_text(parts, text).push(expr), true);
            }
        }
    }
}

pub proof fn lemma_word_end(chars: Seq<char>, numeric: bool, j: int)
    ensures
        word_end_from(chars, numeric, j) >= j,
        j < chars.len() && word_char(chars[j]) ==> word_end_from(chars, numeric, j) > j,
        j <= chars.len() ==> word_end_from(chars, numeric, j) <= chars.len(),
    decreases chars.len() - j,
{
    if j < chars.len() && (word_char(chars[j]) || (numeric && dotted_digit(chars, j))) {
        lemma_word_end(chars, numeric, j + 1);
    }
}

pub proof fn lemma_digits_end(chars: Seq<char>, j: int)
    ensures
        digits_end_from(chars, j) >= j,
        j <= chars.len() ==> digits_end_from(chars, j) <= chars.len(),
        j < chars.len() && digit(chars[j]) ==> digits_end_from(chars, j) > j,
        forall|k: int|
            j <= k < digits_end_from(chars, j) ==> digit(#[trigger] chars[k]) || dotted_digit(chars, k),
    decreases chars.len() - j,
{
    if j < chars.len() && (digit(chars[j]) || dotted_digit(chars, j)) {
        lemma_digits_end(chars, j + 1);
    }
}

proof fn lemma_dots_below(s: Seq<char>)
    requires
        s.len() > 0,
        s[0] != '.',
    ensures
        dot_count(s) < s.len(),
    decreases s.len(),
{
    if s.len() > 1 {
        lemma_dots_below(s.drop_last());
    } else {
        assert(s.last() == s[0]);
        assert(dot_count(s.drop_last()) == 0);
    }
}

/// The message for a character that no token starts with.
pub open spec fn bad_char_message(ch: char) -> Seq<char> {
    "사용할 수 없는 글자: "@ + char_debug(ch)
}

/// The tokens of a line from column `i` on: a `#` starts a comment; a
/// space separates; a quote opens a string; a minus sign right before a
/// digit starts a negative number; `.`, `:`, `(` and `)` are symbols; a
/// word character starts a word, cut as `spec_split` says. Any other
/// character is an error.
pub open spec fn scan_from(
    names: Seq<Seq<char>>,
    forms: Seq<Form>,
    chars: Seq<char>,
    i: int,
    line: usize,
) -> Result<Seq<TokenModel>, Fault>
    decreases chars.len() - i,
{
    if i >= chars.len() {
        Ok(seq![])
    } else {
        let ch = chars[i];
        if ch == '#' {
            Ok(seq![])
        } else if ch == ' ' {
            scan_from(names, forms, chars, i + 1, line)
        } else if ch == '"' {
            match spec_scan_string(chars, i, line) {
                Err(fault) => Err(fault),
                Ok((tok, next)) => {
                    proof {
                        lemma_string_end(chars, i, i + 1, line, seq![], seq![], false);
                    }
                    joined(
                        Ok(seq![token_at(tok, line, i, next)]),
                        scan_from(names, forms, chars, next, line),
                    )
                },
            }
        } else if ch == '-' && i + 1 < chars.len() && digit(chars[i + 1]) {
            let j = digits_end_from(chars, i + 1);
            proof {
                lemma_digits_end(chars, i + 1);
            }
            match spec_number(chars.subrange(i, j)) {
                Err(message) => Err((message, span_at(line, i, j))),
                Ok(num) => joined(
                    Ok(seq![token_at(TokModel::Number(num), line, i, j)]),
                    scan_from(names, forms, chars, j, line),
                ),
            }
        } else if ch == '.' || ch == ':' || ch == '(' || ch == ')' {
            joined(
                Ok(seq![token_at(TokModel::Symbol(ch), line, i, i + 1)]),
                scan_from(names, forms, chars, i + 1, line),
            )
        } else if word_char(ch) {
            let j = spec_word_end(chars, i);
            proof {
                lemma_word_end(chars, digit(chars[i]), i);
            }
            joined(
                spec_split(names, forms, chars.subrange(i, j), line, i, j, true, true),
                scan_from(names, forms, chars, j, line),
            )
        } else {
            Err((bad_char_message(ch), span_at(line, i, i + 1)))
        }
    }
}

/// Whether the tokens of a line end a statement: they end in `.` or `:`,
/// or the line is a single name, keyword, number or string.
pub open spec fn spec_ends_statement(produced: Seq<TokenModel>) -> bool {
    produced.len() > 0 && {
        let last = produced.last().0;
        ||| last == TokModel::Symbol('.')
        ||| last == TokModel::Symbol(':')
        ||| produced.len() == 1 && (last is Number || last is Str || last is Template || last is Keyword
            || last is Name)
    }
}

fn ends_statement(produced: &Vec<Token>) -> (found: bool)
    ensures
        found == spec_ends_statement(tokens_view(produced@)),
{
    if produced.len() == 0 {
        return false;
    }
    let last = &produced[produced.len() - 1];
    assert(tokens_view(produced@).last() == last@);
    match &last.tok {
        Tok::Symbol(ch) => *ch == '.' || *ch == ':',
        Tok::Number(_) | Tok::Str(_) | Tok::Template(_) | Tok::Keyword(_) | Tok::Name(_) => produced.len() == 1,
        _ => false,
    }
}

/// The token of one character.
fn single(tok: Tok, line: usize, col: usize) -> (found: Vec<Token>)
    requires
        col < usize::MAX,
    ensures
        tokens_view(found@) == seq![token_at(tok@, line, col as int, col + 1)],
{
    let out = vec![Token::new(tok, line, col, col + 1)];
    assert(tokens_view(out@) =~= seq![token_at(tok@, line, col as int, col + 1)]);
    out
}

impl<'a> Lexer<'a> {
    /// The tokens of one line.
    #[verifier::rlimit(40)]
    fn scan_line(&self, chars: &Vec<char>, line: usize) -> (found: Result<Vec<Token>, Diag>)
        ensures
            lexed(
                found,
                scan_from(
                    crate::words::string_view(self.vocab.names@),
                    self.vocab.declared(),
                    chars@,
                    0,
                    line,
                ),
            ),
    {
        let ghost names = crate::words::string_view(self.vocab.names@);
        let ghost forms = self.vocab.declared();
        let ghost whole_line = scan_from(names, forms, chars@, 0, line);
        let len = chars.len();
        let mut out: Vec<Token> = Vec::new();
        let mut i: usize = 0;
        assert(tokens_view(out@) =~= Seq::<TokenModel>::empty());
        assert(joined(Ok(seq![]), scan_from(names, forms, chars@, 0, line)) =~= whole_line) by {
            if let Ok(b) = whole_line {
                assert(Seq::<TokenModel>::empty() + b =~= b);
            }
        }
        while i < len
            invariant
                i <= len,
                len == chars@.len(),
                names == crate::words::string_view(self.vocab.names@),
                forms == self.vocab.declared(),
                whole_line == scan_from(names, forms, chars@, 0, line),
                whole_line == joined(Ok(tokens_view(out@)), scan_from(names, forms, chars@, i as int, line)),
            ensures
                i <= len,
                i < len ==> chars@[i as int] == '#',
                whole_line == joined(Ok(tokens_view(out@)), scan_from(names, forms, chars@, i as int, line)),
            decreases len - i,
        {
            let ch = chars[i];
            let ghost done = tokens_view(out@);
            if ch == '#' {
                break;
            }
            if ch == ' ' {
                i += 1;
                continue;
            }
            let (mut piece, next): (Vec<Token>, usize) = if ch == '"' {
                match scan_string(chars, i, line) {
                    Ok((token, next)) => {
                        let piece = vec![token];
                        assert(tokens_view(piece@) =~= seq![token@]);
                        (piece, next)
                    },
                    Err(diag) => {
                        return Err(diag);
                    },
                }
            } else if ch == '-' && i + 1 < len && is_digit(chars[i + 1]) {
                let j = digits_end(chars, i + 1);
                proof {
                    lemma_digits_end(chars@, i + 1);
                    assert(numeral_body(chars@.subrange(i as int, j as int)) =~= chars@.subrange(i + 1, j as int));
                    assert forall|k: int| 0 <= k < j - (i + 1) implies digit(
                        #[trigger] chars@.subrange(i + 1, j as int)[k],
                    ) || chars@.subrange(i + 1, j as int)[k] == '.' by {
                        assert(chars@.subrange(i + 1, j as int)[k] == chars@[i + 1 + k]);
                        assert(digit(chars@[i + 1 + k]) || dotted_digit(chars@, i + 1 + k));
                    }
                    lemma_dots_below(chars@.subrange(i + 1, j as int));
                }
                let raw = string_of(chars.as_slice(), i, j);
                match number(raw.as_str()) {
                    Ok(num) => {
                        let piece = vec![Token::new(Tok::Number(num), line, i, j)];
                        assert(tokens_view(piece@) =~= seq![token_at(TokModel::Number(num@), line, i as int, j as int)]);
                        (piece, j)
                    },
                    Err(message) => {
                        return Err(Diag::lex(message, Span::new(line, i, j)));
                    },
                }
            } else if ch == '.' || ch == ':' || ch == '(' || ch == ')' {
                (single(Tok::Symbol(ch), line, i), i + 1)
            } else if is_word_char(ch) {
                let j = word_end(chars, i);
                proof {
                    lemma_word_end(chars@, digit(chars@[i as int]), i as int);
                }
                let chunk = string_of(chars.as_slice(), i, j);
                let splitting = Splitting { take_particle: true, take_copula: true };
                match self.split_word(chunk.as_str(), line, i, j, splitting) {
                    Ok(piece) => (piece, j),
                    Err(diag) => {
                        return Err(diag);
                    },
                }
            } else {
                let shown = debug_char(ch);
                return Err(Diag::lex(msg::bad_char(shown.as_str()), Span::new(line, i, i + 1)));
            };
            let ghost added = tokens_view(piece@);
            proof {
                lemma_joined_step(done, added, scan_from(names, forms, chars@, next as int, line));
            }
            out.append(&mut piece);
            assert(tokens_view(out@) =~= done + added);
            i = next;
        }
        proof {
            if let Ok(b) = scan_from(names, forms, chars@, i as int, line) {
                assert(b =~= Seq::<TokenModel>::empty());
                assert(tokens_view(out@) + b =~= tokens_view(out@));
            }
        }
        Ok(out)
    }
}

} // verus!
verus! {

/// Tabs become four spaces.
pub open spec fn detab(s: Seq<char>) -> Seq<char>
    decreases s.len(),
{
    if s.len() == 0 {
        seq![]
    } else {
        detab(s.drop_last()) + if s.last() == '\t' {
            seq![' ', ' ', ' ', ' ']
        } else {
            seq![s.last()]
        }
    }
}

/// The source as the lexer reads it: jamo composed, tabs made spaces.
pub open spec fn spec_ready(source: Seq<char>) -> Seq<char> {
    detab(crate::hangul::spec_nfc(source))
}

/// The source as the lexer reads it (see `spec_ready`).
pub fn ready(source: &str) -> (out: String)
    ensures
        out@ == spec_ready(source@),
{
    let composed = crate::hangul::to_nfc(source);
    let letters = chars_of(composed.as_str());
    let mut out = String::new();
    let mut at: usize = 0;
    assert(letters@.take(0) == Seq::<char>::empty());
    while at < letters.len()
        invariant
            at <= letters@.len(),
            letters@ == crate::hangul::spec_nfc(source@),
            out@ == detab(letters@.take(at as int)),
        decreases letters@.len() - at,
    {
        let ch = letters[at];
        assert(letters@.take(at + 1).drop_last() == letters@.take(at as int));
        if ch == '\t' {
            push_char(&mut out, ' ');
            push_char(&mut out, ' ');
            push_char(&mut out, ' ');
            push_char(&mut out, ' ');
        } else {
            push_char(&mut out, ch);
        }
        at += 1;
    }
    assert(letters@.take(letters@.len() as int) == letters@);
    out
}

proof fn lemma_detab_len(s: Seq<char>)
    ensures
        detab(s).len() <= 4 * s.len(),
    decreases s.len(),
{
    if s.len() > 0 {
        lemma_detab_len(s.drop_last());
    }
}

proof fn lemma_nfc_len(s: Seq<char>)
    ensures
        crate::hangul::spec_nfc(s).len() <= s.len(),
    decreases s.len(),
{
    if s.len() > 0 {
        lemma_nfc_len(s.skip(1));
        if s.len() > 1 {
            lemma_nfc_len(s.skip(2));
        }
        if s.len() > 2 {
            lemma_nfc_len(s.skip(3));
        }
    }
}

/// Where the run of spaces that goes on at `i` ends.
pub open spec fn space_run(chars: Seq<char>, i: int) -> int
    decreases chars.len() - i,
{
    if i < chars.len() && chars[i] == ' ' {
        space_run(chars, i + 1)
    } else {
        i
    }
}

/// Closing the blocks deeper than `depth`: the indents that stay, and a
/// dedent token for each block closed.
pub open spec fn dedents(indents: Seq<usize>, depth: usize, line: usize) -> (Seq<usize>, Seq<TokenModel>)
    decreases indents.len(),
{
    if indents.len() > 0 && depth < indents.last() {
        let (kept, closed) = dedents(indents.drop_last(), depth, line);
        (kept, seq![token_at(TokModel::Dedent(depth as nat), line, 0, depth as int)] + closed)
    } else {
        (indents, seq![])
    }
}

/// A statement that starts at `depth`: deeper than the open block opens a
/// new one; shallower closes blocks, and must land on an open block's depth.
pub open spec fn opening(indents: Seq<usize>, depth: usize, line: usize) -> Result<(Seq<usize>, Seq<TokenModel>), Fault> {
    let (pushed, first) = if depth > indents.last() {
        (indents.push(depth), seq![token_at(TokModel::Indent(depth as nat), line, 0, depth as int)])
    } else {
        (indents, Seq::<TokenModel>::empty())
    };
    let (kept, closed) = dedents(pushed, depth, line);
    if kept.len() == 0 || depth != kept.last() {
        Err((msg::INDENT_ODD@, span_at(line, 0, depth as int)))
    } else {
        Ok((kept, first + closed))
    }
}

/// The state of the lexer between lines: open block depths, whether a
/// statement starts on the next line, and the depth of the current one.
pub type LineState = (Seq<usize>, bool, usize);

/// One line: blank and comment lines are skipped; a line that goes on a
/// statement must be deeper than the statement's first line; a line that
/// starts one opens and closes blocks; its tokens follow, and a newline
/// token where the statement ends.
pub open spec fn line_step(
    names: Seq<Seq<char>>,
    forms: Seq<Form>,
    chars: Seq<char>,
    line: usize,
    state: LineState,
) -> Result<(Seq<TokenModel>, LineState), Fault> {
    let (indents, at_start, statement) = state;
    let depth = space_run(chars, 0);
    if depth == chars.len() || chars[depth] == '#' {
        Ok((seq![], state))
    } else if !at_start && depth <= statement {
        Err((msg::MISSING_PERIOD@, span_at(line, 0, depth)))
    } else {
        let open = if at_start {
            opening(indents, depth as usize, line)
        } else {
            Ok((indents, Seq::<TokenModel>::empty()))
        };
        match open {
            Err(fault) => Err(fault),
            Ok((kept, first)) => match scan_from(names, forms, chars, 0, line) {
                Err(fault) => Err(fault),
                Ok(produced) => {
                    let ends = spec_ends_statement(produced);
                    let end = if produced.len() > 0 {
                        produced.last().1.end
                    } else {
                        0usize
                    };
                    let newline = if ends {
                        seq![token_at(TokModel::Newline, line, end as int, end as int)]
                    } else {
                        Seq::<TokenModel>::empty()
                    };
                    let statement = if at_start {
                        depth as usize
                    } else {
                        statement
                    };
                    Ok((first + produced + newline, (kept, ends, statement)))
                },
            },
        }
    }
}

/// The end of the text: a dedent for each open block, then the end token.
pub open spec fn closing_tokens(open: nat, line: usize) -> Seq<TokenModel> {
    Seq::new(open, |i: int| token_at(TokModel::Dedent(0), line, 0, 0)).push(token_at(TokModel::Eof, line, 0, 0))
}

/// The tokens of `text`, whose first line is line `line`.
pub open spec fn lines_from(
    names: Seq<Seq<char>>,
    forms: Seq<Form>,
    text: Seq<char>,
    line: usize,
    state: LineState,
) -> Result<Seq<TokenModel>, Fault>
    decreases text.len(),
{
    let k = crate::report::newline_index(text);
    match line_step(names, forms, text.take(k as int), line, state) {
        Err(fault) => Err(fault),
        Ok((found, next)) => if k < text.len() {
            joined(Ok(found), lines_from(names, forms, text.skip(k + 1 as int), (line + 1) as usize, next))
        } else {
            Ok(found + closing_tokens((next.0.len() - 1) as nat, line))
        },
    }
}

/// The tokens of a source, given the names and verb forms it declares.
pub open spec fn spec_tokenize(names: Seq<Seq<char>>, forms: Seq<Form>, source: Seq<char>) -> Result<
    Seq<TokenModel>,
    Fault,
> {
    lines_from(names, forms, spec_ready(source), 1, (seq![0usize], true, 0usize))
}

} // verus!
verus! {

fn space_count(chars: &Vec<char>) -> (depth: usize)
    ensures
        depth == space_run(chars@, 0),
        depth <= chars@.len(),
{
    let mut depth: usize = 0;
    while depth < chars.len() && chars[depth] == ' '
        invariant
            depth <= chars@.len(),
            space_run(chars@, 0) == space_run(chars@, depth as int),
        decreases chars@.len() - depth,
    {
        depth += 1;
    }
    depth
}

proof fn lemma_dedents_keep(indents: Seq<usize>, depth: usize, line: usize)
    requires
        indents.len() > 0,
        indents[0] == 0,
    ensures
        dedents(indents, depth, line).0.len() > 0,
        dedents(indents, depth, line).0[0] == 0,
    decreases indents.len(),
{
    if depth < indents.last() {
        assert(indents.len() > 1);
        lemma_dedents_keep(indents.drop_last(), depth, line);
    }
}

/// Opens and closes blocks for a statement that starts at `depth`.
fn open_line(indents: &mut Vec<usize>, depth: usize, line: usize) -> (found: Result<Vec<Token>, Diag>)
    requires
        old(indents)@.len() > 0,
        old(indents)@[0] == 0,
    ensures
        match found {
            Ok(tokens) => {
                &&& opening(old(indents)@, depth, line) == Ok::<(Seq<usize>, Seq<TokenModel>), Fault>(
                    (final(indents)@, tokens_view(tokens@)),
                )
                &&& final(indents)@.len() > 0
                &&& final(indents)@[0] == 0
            },
            Err(diag) => {
                &&& diag.kind == msg::LEX
                &&& diag.hint is None
                &&& diag.unit is None
                &&& opening(old(indents)@, depth, line) == Err::<(Seq<usize>, Seq<TokenModel>), Fault>(
                    (diag.msg@, diag.span),
                )
            },
        },
{
    let ghost start = indents@;
    let mut out: Vec<Token> = Vec::new();
    if depth > indents[indents.len() - 1] {
        indents.push(depth);
        out.push(Token::new(Tok::Indent(depth), line, 0, depth));
    }
    let ghost pushed = indents@;
    let ghost first = tokens_view(out@);
    assert(first =~= (if depth > start.last() {
        seq![token_at(TokModel::Indent(depth as nat), line, 0, depth as int)]
    } else {
        Seq::<TokenModel>::empty()
    }));
    proof {
        lemma_dedents_keep(pushed, depth, line);
    }
    while depth < indents[indents.len() - 1]
        invariant
            indents@.len() > 0,
            indents@[0] == 0,
            dedents(pushed, depth, line).0 == dedents(indents@, depth, line).0,
            first + dedents(pushed, depth, line).1 == tokens_view(out@) + dedents(indents@, depth, line).1,
        decreases indents@.len(),
    {
        let ghost before = tokens_view(out@);
        let ghost now = indents@;
        indents.pop();
        assert(indents@ == now.drop_last());
        out.push(Token::new(Tok::Dedent(depth), line, 0, depth));
        let ghost tok = token_at(TokModel::Dedent(depth as nat), line, 0, depth as int);
        assert(tokens_view(out@) =~= before.push(tok));
        assert(before + (seq![tok] + dedents(indents@, depth, line).1) =~= before.push(tok) + dedents(
            indents@,
            depth,
            line,
        ).1);
    }
    assert(tokens_view(out@) + dedents(indents@, depth, line).1 =~= tokens_view(out@));
    if depth != indents[indents.len() - 1] {
        return Err(Diag::lex(owned(msg::INDENT_ODD), Span::new(line, 0, depth)));
    }
    Ok(out)
}

/// Where the line that starts at `at` ends: at its `\n`, or at the end.
fn line_end(chars: &Vec<char>, at: usize) -> (end: usize)
    requires
        at <= chars@.len(),
    ensures
        end == at + crate::report::newline_index(chars@.skip(at as int)),
        end <= chars@.len(),
        end < chars@.len() ==> chars@[end as int] == '\n',
{
    let mut end = at;
    while end < chars.len() && chars[end] != '\n'
        invariant
            at <= end <= chars@.len(),
            at + crate::report::newline_index(chars@.skip(at as int)) == end
                + crate::report::newline_index(chars@.skip(end as int)),
        decreases chars@.len() - end,
    {
        assert(chars@.skip(end as int).skip(1) == chars@.skip(end + 1));
        end += 1;
    }
    end
}

/// The characters `chars[from..to]`.
fn slice_chars(chars: &Vec<char>, from: usize, to: usize) -> (out: Vec<char>)
    requires
        from <= to <= chars@.len(),
    ensures
        out@ == chars@.subrange(from as int, to as int),
{
    let mut out: Vec<char> = Vec::new();
    let mut at = from;
    while at < to
        invariant
            from <= at <= to <= chars@.len(),
            out@ == chars@.subrange(from as int, at as int),
        decreases to - at,
    {
        out.push(chars[at]);
        assert(chars@.subrange(from as int, at + 1) == chars@.subrange(from as int, at as int).push(chars@[at as int]));
        at += 1;
    }
    out
}

} // verus!
verus! {

impl<'a> Lexer<'a> {
    /// One line (see `line_step`); the state is updated in place.
    #[verifier::rlimit(40)]
    fn step_line(
        &self,
        chars: &Vec<char>,
        line: usize,
        indents: &mut Vec<usize>,
        at_start: &mut bool,
        statement: &mut usize,
    ) -> (found: Result<Vec<Token>, Diag>)
        requires
            old(indents)@.len() > 0,
            old(indents)@[0] == 0,
        ensures
            match found {
                Ok(tokens) => {
                    &&& line_step(
                        crate::words::string_view(self.vocab.names@),
                        self.vocab.declared(),
                        chars@,
                        line,
                        (old(indents)@, *old(at_start), *old(statement)),
                    ) == Ok::<(Seq<TokenModel>, LineState), Fault>(
                        (tokens_view(tokens@), (final(indents)@, *final(at_start), *final(statement))),
                    )
                    &&& final(indents)@.len() > 0
                    &&& final(indents)@[0] == 0
                },
                Err(diag) => {
                    &&& diag.kind == msg::LEX
                    &&& diag.hint is None
                    &&& diag.unit is None
                    &&& line_step(
                        crate::words::string_view(self.vocab.names@),
                        self.vocab.declared(),
                        chars@,
                        line,
                        (old(indents)@, *old(at_start), *old(statement)),
                    ) == Err::<(Seq<TokenModel>, LineState), Fault>((diag.msg@, diag.span))
                },
            },
    {
        let depth = space_count(chars);
        if depth == chars.len() || chars[depth] == '#' {
            let none: Vec<Token> = Vec::new();
            assert(tokens_view(none@) =~= Seq::<TokenModel>::empty());
            return Ok(none);
        }
        if !*at_start && depth <= *statement {
            return Err(Diag::lex(owned(msg::MISSING_PERIOD), Span::new(line, 0, depth)));
        }
        let mut out: Vec<Token> = if *at_start {
            match open_line(indents, depth, line) {
                Ok(first) => first,
                Err(diag) => {
                    return Err(diag);
                },
            }
        } else {
            let none: Vec<Token> = Vec::new();
            assert(tokens_view(none@) =~= Seq::<TokenModel>::empty());
            none
        };
        let ghost first = tokens_view(out@);
        let mut produced = match self.scan_line(chars, line) {
            Ok(produced) => produced,
            Err(diag) => {
                return Err(diag);
            },
        };
        let ends = ends_statement(&produced);
        let ghost found = tokens_view(produced@);
        let end = if produced.len() > 0 {
            assert(found.last().1 == produced@[produced@.len() - 1].span);
            produced[produced.len() - 1].span.end
        } else {
            0
        };
        out.append(&mut produced);
        assert(tokens_view(out@) =~= first + found);
        if ends {
            let ghost before = tokens_view(out@);
            out.push(Token::new(Tok::Newline, line, end, end));
            assert(tokens_view(out@) =~= before + seq![token_at(TokModel::Newline, line, end as int, end as int)]);
        } else {
            assert(tokens_view(out@) =~= first + found + Seq::<TokenModel>::empty());
        }
        if *at_start {
            *statement = depth;
        }
        *at_start = ends;
        Ok(out)
    }
}

/// The tokens of `source`. A statement may go on over several lines, each
/// deeper than its first; it ends with `.` or `:`, or is a line of a single
/// name, keyword, number or string. Blocks open and close by indentation.
#[verifier::rlimit(40)]
pub fn tokenize(source: &str, vocab: &Vocabulary) -> (found: Result<Vec<Token>, Diag>)
    requires
        4 * source@.len() < usize::MAX,
    ensures
        lexed(found, spec_tokenize(crate::words::string_view(vocab.names@), vocab.declared(), source@)),
{
    let ghost names = crate::words::string_view(vocab.names@);
    let ghost forms = vocab.declared();
    let text = ready(source);
    let chars = chars_of(text.as_str());
    proof {
        lemma_nfc_len(source@);
        lemma_detab_len(crate::hangul::spec_nfc(source@));
    }
    let len = chars.len();
    let lexer = Lexer { vocab };
    let mut tokens: Vec<Token> = Vec::new();
    let mut indents: Vec<usize> = vec![0];
    let mut at_start = true;
    let mut statement: usize = 0;
    let mut at: usize = 0;
    let mut line: usize = 1;
    let ghost whole = spec_tokenize(names, forms, source@);
    assert(chars@.skip(0) == chars@);
    assert(indents@ == seq![0usize]);
    assert(joined(Ok(tokens_view(tokens@)), whole) == whole) by {
        assert(tokens_view(tokens@) =~= Seq::<TokenModel>::empty());
        if let Ok(b) = whole {
            assert(Seq::<TokenModel>::empty() + b =~= b);
        }
    }
    loop
        invariant
            at <= len,
            len == chars@.len(),
            len < usize::MAX,
            1 <= line <= at + 1,
            names == crate::words::string_view(vocab.names@),
            forms == vocab.declared(),
            lexer.vocab == vocab,
            indents@.len() > 0,
            indents@[0] == 0,
            whole == spec_tokenize(names, forms, source@),
            whole == joined(
                Ok(tokens_view(tokens@)),
                lines_from(names, forms, chars@.skip(at as int), line, (indents@, at_start, statement)),
            ),
        decreases len - at,
    {
        let end = line_end(&chars, at);
        let ghost rest = chars@.skip(at as int);
        let piece = slice_chars(&chars, at, end);
        assert(piece@ == rest.take(end - at));
        let ghost state = (indents@, at_start, statement);
        let mut found = match lexer.step_line(&piece, line, &mut indents, &mut at_start, &mut statement) {
            Ok(found) => found,
            Err(diag) => {
                return Err(diag);
            },
        };
        let ghost added = tokens_view(found@);
        let ghost done = tokens_view(tokens@);
        tokens.append(&mut found);
        assert(tokens_view(tokens@) =~= done + added);
        if end < len {
            assert(rest.skip(end - at + 1) == chars@.skip(end + 1));
            proof {
                lemma_joined_step(
                    done,
                    added,
                    lines_from(names, forms, chars@.skip(end + 1), (line + 1) as usize, (indents@, at_start, statement)),
                );
            }
            at = end + 1;
            line = line + 1;
        } else {
            let ghost before = tokens_view(tokens@);
            let mut open = indents.len() - 1;
            while open > 0
                invariant
                    open < indents@.len(),
                    before + closing_tokens((indents@.len() - 1) as nat, line) == tokens_view(tokens@)
                        + closing_tokens(open as nat, line),
                decreases open,
            {
                let ghost now = tokens_view(tokens@);
                tokens.push(Token::new(Tok::Dedent(0), line, 0, 0));
                assert(tokens_view(tokens@) =~= now.push(token_at(TokModel::Dedent(0), line, 0, 0)));
                assert(now + closing_tokens(open as nat, line) =~= now.push(
                    token_at(TokModel::Dedent(0), line, 0, 0),
                ) + closing_tokens((open - 1) as nat, line));
                open -= 1;
            }
            let ghost now = tokens_view(tokens@);
            tokens.push(Token::new(Tok::Eof, line, 0, 0));
            assert(tokens_view(tokens@) =~= now + closing_tokens(0, line));
            assert(done + (added + closing_tokens((indents@.len() - 1) as nat, line)) =~= before
                + closing_tokens((indents@.len() - 1) as nat, line));
            return Ok(tokens);
        }
    }
}

} // verus!
verus! {

/// How many blocks the tokens leave open: indents less dedents.
pub open spec fn opened(tokens: Seq<TokenModel>) -> int
    decreases tokens.len(),
{
    if tokens.len() == 0 {
        0
    } else {
        opened(tokens.drop_last()) + if tokens.last().0 is Indent {
            1int
        } else if tokens.last().0 is Dedent {
            -1int
        } else {
            0int
        }
    }
}

/// A token that is not about layout: no indent, dedent or end.
pub open spec fn plain(tok: TokModel) -> bool {
    !(tok is Indent) && !(tok is Dedent) && !(tok is Eof)
}

pub open spec fn all_plain(tokens: Seq<TokenModel>) -> bool {
    forall|i: int| 0 <= i < tokens.len() ==> plain(#[trigger] tokens[i].0)
}

proof fn lemma_opened_concat(a: Seq<TokenModel>, b: Seq<TokenModel>)
    ensures
        opened(a + b) == opened(a) + opened(b),
    decreases b.len(),
{
    if b.len() == 0 {
        assert(a + b =~= a);
    } else {
        lemma_opened_concat(a, b.drop_last());
        assert((a + b).drop_last() =~= a + b.drop_last());
    }
}

proof fn lemma_opened_one(tok: TokenModel)
    ensures
        opened(seq![tok]) == if tok.0 is Indent {
            1int
        } else if tok.0 is Dedent {
            -1int
        } else {
            0int
        },
{
    assert(seq![tok].drop_last() =~= Seq::<TokenModel>::empty());
    assert(opened(Seq::<TokenModel>::empty()) == 0);
    assert(seq![tok].last() == tok);
}

proof fn lemma_opened_plain(tokens: Seq<TokenModel>)
    requires
        all_plain(tokens),
    ensures
        opened(tokens) == 0,
    decreases tokens.len(),
{
    if tokens.len() > 0 {
        assert(plain(tokens[tokens.len() - 1].0));
        lemma_opened_plain(tokens.drop_last());
    }
}

proof fn lemma_joined_plain(first: Result<Seq<TokenModel>, Fault>, rest: Result<Seq<TokenModel>, Fault>)
    requires
        first matches Ok(a) ==> all_plain(a),
        rest matches Ok(b) ==> all_plain(b),
    ensures
        joined(first, rest) matches Ok(c) ==> all_plain(c),
{
    if let (Ok(a), Ok(b)) = (first, rest) {
        assert forall|i: int| 0 <= i < (a + b).len() implies plain(#[trigger] (a + b)[i].0) by {
            if i < a.len() {
                assert((a + b)[i] == a[i]);
            } else {
                assert((a + b)[i] == b[i - a.len()]);
            }
        }
    }
}

proof fn lemma_split_plain(
    names: Seq<Seq<char>>,
    forms: Seq<Form>,
    chunk: Seq<char>,
    line: usize,
    col: int,
    end: int,
    take_particle: bool,
    take_copula: bool,
)
    ensures
        spec_split(names, forms, chunk, line, col, end, take_particle, take_copula) matches Ok(found)
            ==> all_plain(found),
    decreases chunk.len(),
{
    crate::words::lemma_copula_suffix_fits(chunk, names);
    lemma_particle_fit(chunk);
    if take_copula && crate::words::spec_copula_suffix(chunk, names) is Some {
        let (form, ending) = crate::words::spec_copula_suffix(chunk, names).unwrap();
        let head = crate::words::head_before(chunk, form.len());
        lemma_split_plain(names, forms, head, line, col, end - form.len(), take_particle, keyword_before_copula(head));
    }
    if take_particle && first_fit3(particles_longest(), chunk) is Some {
        let (form, role, canon) = first_fit3(particles_longest(), chunk).unwrap();
        let head = crate::words::head_before(chunk, form.len());
        lemma_split_plain(names, forms, head, line, col, end - form.len(), false, take_copula);
    }
    if let Ok(found) = spec_split(names, forms, chunk, line, col, end, take_particle, take_copula) {
        assert forall|i: int| 0 <= i < found.len() implies plain(#[trigger] found[i].0) by {
            if i < found.len() - 1 {
                assert(found[i] == found.drop_last()[i]);
            }
        }
    }
}

proof fn lemma_scan_plain(names: Seq<Seq<char>>, forms: Seq<Form>, chars: Seq<char>, i: int, line: usize)
    ensures
        scan_from(names, forms, chars, i, line) matches Ok(found) ==> all_plain(found),
    decreases chars.len() - i,
{
    if i < chars.len() {
        let ch = chars[i];
        if ch == '#' {
        } else if ch == ' ' {
            lemma_scan_plain(names, forms, chars, i + 1, line);
        } else if ch == '"' {
            if let Ok((tok, next)) = spec_scan_string(chars, i, line) {
                lemma_string_end(chars, i, i + 1, line, seq![], seq![], false);
                lemma_scan_plain(names, forms, chars, next, line);
                lemma_joined_plain(Ok(seq![token_at(tok, line, i, next)]), scan_from(names, forms, chars, next, line));
            }
        } else if ch == '-' && i + 1 < chars.len() && digit(chars[i + 1]) {
            let j = digits_end_from(chars, i + 1);
            lemma_digits_end(chars, i + 1);
            if let Ok(num) = spec_number(chars.subrange(i, j)) {
                lemma_scan_plain(names, forms, chars, j, line);
                lemma_joined_plain(
                    Ok(seq![token_at(TokModel::Number(num), line, i, j)]),
                    scan_from(names, forms, chars, j, line),
                );
            }
        } else if ch == '.' || ch == ':' || ch == '(' || ch == ')' {
            lemma_scan_plain(names, forms, chars, i + 1, line);
            lemma_joined_plain(
                Ok(seq![token_at(TokModel::Symbol(ch), line, i, i + 1)]),
                scan_from(names, forms, chars, i + 1, line),
            );
        } else if word_char(ch) {
            let j = spec_word_end(chars, i);
            lemma_word_end(chars, digit(chars[i]), i);
            lemma_scan_plain(names, forms, chars, j, line);
            lemma_split_plain(names, forms, chars.subrange(i, j), line, i, j, true, true);
            lemma_joined_plain(
                spec_split(names, forms, chars.subrange(i, j), line, i, j, true, true),
                scan_from(names, forms, chars, j, line),
            );
        }
    }
}

proof fn lemma_dedents_opened(indents: Seq<usize>, depth: usize, line: usize)
    ensures
        opened(dedents(indents, depth, line).1) == dedents(indents, depth, line).0.len() - indents.len(),
        dedents(indents, depth, line).0.len() <= indents.len(),
    decreases indents.len(),
{
    if indents.len() > 0 && depth < indents.last() {
        lemma_dedents_opened(indents.drop_last(), depth, line);
        let (kept, closed) = dedents(indents.drop_last(), depth, line);
        let tok = token_at(TokModel::Dedent(depth as nat), line, 0, depth as int);
        lemma_opened_concat(seq![tok], closed);
        lemma_opened_one(tok);
    }
}

proof fn lemma_line_step_opened(
    names: Seq<Seq<char>>,
    forms: Seq<Form>,
    chars: Seq<char>,
    line: usize,
    state: LineState,
)
    requires
        state.0.len() > 0,
        state.0[0] == 0,
    ensures
        line_step(names, forms, chars, line, state) matches Ok((found, next)) ==> {
            &&& opened(found) == next.0.len() - state.0.len()
            &&& next.0.len() > 0
            &&& next.0[0] == 0
            &&& all_plain_or_layout(found)
        },
{
    let (indents, at_start, statement) = state;
    let depth = space_run(chars, 0);
    lemma_scan_plain(names, forms, chars, 0, line);
    if let Ok((found, next)) = line_step(names, forms, chars, line, state) {
        if depth == chars.len() || chars[depth] == '#' {
        } else {
            let produced = match scan_from(names, forms, chars, 0, line) {
                Ok(produced) => produced,
                Err(_) => Seq::<TokenModel>::empty(),
            };
            lemma_opened_plain(produced);
            let ends = spec_ends_statement(produced);
            let end = if produced.len() > 0 {
                produced.last().1.end
            } else {
                0usize
            };
            let newline = if ends {
                seq![token_at(TokModel::Newline, line, end as int, end as int)]
            } else {
                Seq::<TokenModel>::empty()
            };
            assert(opened(newline) == 0) by {
                if ends {
                    lemma_opened_one(token_at(TokModel::Newline, line, end as int, end as int));
                }
            }
            let first = if at_start {
                let d = depth as usize;
                let (pushed, opening_first) = if d > indents.last() {
                    (indents.push(d), seq![token_at(TokModel::Indent(d as nat), line, 0, d as int)])
                } else {
                    (indents, Seq::<TokenModel>::empty())
                };
                lemma_dedents_opened(pushed, d, line);
                lemma_dedents_keep(pushed, d, line);
                let (kept, closed) = dedents(pushed, d, line);
                lemma_opened_concat(opening_first, closed);
                if d > indents.last() {
                    lemma_opened_one(token_at(TokModel::Indent(d as nat), line, 0, d as int));
                    assert(pushed[0] == 0);
                }
                opening_first + closed
            } else {
                Seq::<TokenModel>::empty()
            };
            lemma_opened_concat(first, produced);
            lemma_opened_concat(first + produced, newline);
            assert forall|i: int| 0 <= i < found.len() implies plain(#[trigger] found[i].0) || found[i].0 is Indent
                || found[i].0 is Dedent by {
                if i >= first.len() && i < first.len() + produced.len() {
                    assert(found[i] == produced[i - first.len()]);
                } else if i >= first.len() + produced.len() {
                    assert(found[i] == newline[i - first.len() - produced.len()]);
                } else if at_start {
                    let d = depth as usize;
                    let (pushed, opening_first) = if d > indents.last() {
                        (indents.push(d), seq![token_at(TokModel::Indent(d as nat), line, 0, d as int)])
                    } else {
                        (indents, Seq::<TokenModel>::empty())
                    };
                    let (kept, closed) = dedents(pushed, d, line);
                    lemma_dedents_only(pushed, d, line);
                    if i < opening_first.len() {
                        assert(found[i] == opening_first[i]);
                    } else {
                        assert(found[i] == closed[i - opening_first.len()]);
                    }
                }
            }
        }
    }
}

/// No end token among the tokens.
pub open spec fn all_plain_or_layout(tokens: Seq<TokenModel>) -> bool {
    forall|i: int| 0 <= i < tokens.len() ==> !(#[trigger] tokens[i].0 is Eof)
}

proof fn lemma_dedents_only(indents: Seq<usize>, depth: usize, line: usize)
    ensures
        forall|i: int| 0 <= i < dedents(indents, depth, line).1.len() ==> #[trigger] dedents(indents, depth, line).1[i].0
            is Dedent,
    decreases indents.len(),
{
    if indents.len() > 0 && depth < indents.last() {
        lemma_dedents_only(indents.drop_last(), depth, line);
        let (kept, closed) = dedents(indents.drop_last(), depth, line);
        let tok = token_at(TokModel::Dedent(depth as nat), line, 0, depth as int);
        assert forall|i: int| 0 <= i < (seq![tok] + closed).len() implies #[trigger] (seq![tok] + closed)[i].0 is Dedent by {
            if i > 0 {
                assert((seq![tok] + closed)[i] == closed[i - 1]);
            }
        }
    }
}

proof fn lemma_closing(open: nat, line: usize)
    ensures
        opened(closing_tokens(open, line)) == -open,
        closing_tokens(open, line).last().0 == TokModel::Eof,
        closing_tokens(open, line).len() == open + 1,
    decreases open,
{
    let all = closing_tokens(open, line);
    assert(all.drop_last() =~= Seq::new(open, |i: int| token_at(TokModel::Dedent(0), line, 0, 0)));
    lemma_dedent_run(open, line);
}

proof fn lemma_dedent_run(open: nat, line: usize)
    ensures
        opened(Seq::new(open, |i: int| token_at(TokModel::Dedent(0), line, 0, 0))) == -open,
    decreases open,
{
    if open > 0 {
        lemma_dedent_run((open - 1) as nat, line);
        assert(Seq::new(open, |i: int| token_at(TokModel::Dedent(0), line, 0, 0)).drop_last() =~= Seq::new(
            (open - 1) as nat,
            |i: int| token_at(TokModel::Dedent(0), line, 0, 0),
        ));
    }
}

proof fn lemma_lines_balanced(
    names: Seq<Seq<char>>,
    forms: Seq<Form>,
    text: Seq<char>,
    line: usize,
    state: LineState,
)
    requires
        state.0.len() > 0,
        state.0[0] == 0,
    ensures
        lines_from(names, forms, text, line, state) matches Ok(found) ==> {
            &&& opened(found) == 1 - state.0.len()
            &&& found.len() > 0
            &&& found.last().0 == TokModel::Eof
        },
    decreases text.len(),
{
    let k = crate::report::newline_index(text);
    lemma_line_step_opened(names, forms, text.take(k as int), line, state);
    if let Ok((found, next)) = line_step(names, forms, text.take(k as int), line, state) {
        if k < text.len() {
            lemma_lines_balanced(names, forms, text.skip(k + 1 as int), (line + 1) as usize, next);
            if let Ok(rest) = lines_from(names, forms, text.skip(k + 1 as int), (line + 1) as usize, next) {
                lemma_opened_concat(found, rest);
                assert((found + rest).last() == rest.last());
            }
        } else {
            let closing = closing_tokens((next.0.len() - 1) as nat, line);
            lemma_closing((next.0.len() - 1) as nat, line);
            lemma_opened_concat(found, closing);
            assert((found + closing).last() == closing.last());
        }
    }
}

/// Blocks balance: every indent the lexer gives is closed by a dedent, and
/// the tokens end with the end token.
pub proof fn law_tokens_balanced(names: Seq<Seq<char>>, forms: Seq<Form>, source: Seq<char>)
    ensures
        spec_tokenize(names, forms, source) matches Ok(found) ==> {
            &&& opened(found) == 0
            &&& found.len() > 0
            &&& found.last().0 == TokModel::Eof
        },
{
    lemma_lines_balanced(names, forms, spec_ready(source), 1, (seq![0usize], true, 0usize));
}

} // verus!
verus! {

/// The tokens lie side by side on `line` and cover `col..end` exactly.
pub open spec fn covers(tokens: Seq<TokenModel>, line: usize, col: int, end: int) -> bool {
    &&& tokens.len() > 0
    &&& tokens[0].1.col == col
    &&& tokens.last().1.end == end
    &&& forall|i: int| 0 <= i < tokens.len() ==> #[trigger] tokens[i].1.line == line
    &&& forall|i: int| 0 <= i < tokens.len() - 1 ==> #[trigger] tokens[i].1.end == tokens[i + 1].1.col
}

/// A word is cut into pieces that lie side by side and make up the whole
/// word: no character is lost or counted twice.
pub proof fn law_split_covers_word(
    names: Seq<Seq<char>>,
    forms: Seq<Form>,
    chunk: Seq<char>,
    line: usize,
    col: int,
    end: int,
    take_particle: bool,
    take_copula: bool,
)
    requires
        0 <= col,
        col + chunk.len() == end,
        end <= usize::MAX,
    ensures
        spec_split(names, forms, chunk, line, col, end, take_particle, take_copula) matches Ok(found) ==> covers(
            found,
            line,
            col,
            end,
        ),
    decreases chunk.len(),
{
    crate::words::lemma_copula_suffix_fits(chunk, names);
    lemma_particle_fit(chunk);
    if let Ok(found) = spec_split(names, forms, chunk, line, col, end, take_particle, take_copula) {
        let split_copula = !crate::words::keyword_table().contains(chunk) && !(crate::words::known(names, chunk)
            || comparative_word(chunk)) && crate::words::lookup(builtin_view(), chunk) is None
            && crate::words::lookup(forms, chunk) is None && first_fit(crate::words::hada_table(), chunk) is None
            && first_fit(crate::words::doeda_table(), chunk) is None && first_exact(crate::words::copula_table(), chunk)
            is None && take_copula && crate::words::spec_copula_suffix(chunk, names) is Some;
        let split_particle = !split_copula && !crate::words::keyword_table().contains(chunk) && !(
        crate::words::known(names, chunk) || comparative_word(chunk)) && crate::words::lookup(builtin_view(), chunk)
            is None && crate::words::lookup(forms, chunk) is None && first_fit(crate::words::hada_table(), chunk)
            is None && first_fit(crate::words::doeda_table(), chunk) is None && first_exact(
            crate::words::copula_table(),
            chunk,
        ) is None && !(take_copula && crate::words::spec_copula_suffix(chunk, names) is Some)
            && crate::words::spec_particle(chunk) is None && !numeric_word(chunk) && take_particle
            && !crate::words::ends_with_form(chunk, "부터의"@) && !crate::words::ends_with_form(chunk, "까지의"@)
            && first_fit3(particles_longest(), chunk) is Some;
        if split_copula {
            let (form, ending) = crate::words::spec_copula_suffix(chunk, names).unwrap();
            let head = crate::words::head_before(chunk, form.len());
            let cut = end - form.len();
            law_split_covers_word(names, forms, head, line, col, cut, take_particle, keyword_before_copula(head));
            lemma_then_covers(
                spec_split(names, forms, head, line, col, cut, take_particle, keyword_before_copula(head)),
                TokModel::Copula(ending),
                line,
                col,
                cut,
                end,
            );
        } else if split_particle {
            let (form, role, canon) = first_fit3(particles_longest(), chunk).unwrap();
            let head = crate::words::head_before(chunk, form.len());
            let cut = end - form.len();
            law_split_covers_word(names, forms, head, line, col, cut, false, take_copula);
            lemma_then_covers(
                spec_split(names, forms, head, line, col, cut, false, take_copula),
                TokModel::Particle(role, canon),
                line,
                col,
                cut,
                end,
            );
        } else {
            assert(found.len() == 1);
        }
    }
}

proof fn lemma_then_covers(
    head: Result<Seq<TokenModel>, Fault>,
    tok: TokModel,
    line: usize,
    col: int,
    cut: int,
    end: int,
)
    requires
        0 <= col <= cut <= end <= usize::MAX,
        head matches Ok(found) ==> covers(found, line, col, cut),
    ensures
        then_token(head, tok, line, cut, end) matches Ok(found) ==> covers(found, line, col, end),
{
    if let Ok(found) = head {
        let all = found.push(token_at(tok, line, cut, end));
        assert(all[0] == found[0]);
        assert forall|i: int| 0 <= i < all.len() - 1 implies #[trigger] all[i].1.end == all[i + 1].1.col by {
            if i < found.len() - 1 {
                assert(all[i] == found[i] && all[i + 1] == found[i + 1]);
            } else {
                assert(all[i] == found.last());
            }
        }
        assert forall|i: int| 0 <= i < all.len() implies #[trigger] all[i].1.line == line by {
            if i < found.len() {
                assert(all[i] == found[i]);
            }
        }
    }
}

/// A declared name is never cut: it stays one name token.
pub proof fn law_known_names_stay_whole(
    names: Seq<Seq<char>>,
    forms: Seq<Form>,
    chunk: Seq<char>,
    line: usize,
    col: int,
    end: int,
    take_particle: bool,
    take_copula: bool,
)
    requires
        names.contains(chunk),
        !crate::words::keyword_table().contains(chunk),
    ensures
        spec_split(names, forms, chunk, line, col, end, take_particle, take_copula) == Ok::<Seq<TokenModel>, Fault>(
            seq![token_at(TokModel::Name(chunk), line, col, end)],
        ),
{
}

} // verus!
verus! {

/// The lexer reads a source with jamo composed and each tab widened to
/// four spaces; a tab before ㄱ ㅏ gives four spaces and 가.
pub proof fn law_ready_example()
    ensures
        spec_ready(seq!['\t', '\u{1100}', '\u{1161}']) == seq![' ', ' ', ' ', ' ', '가'],
{
    let s = seq!['\t', '\u{1100}', '\u{1161}'];
    let rest = s.skip(1);
    assert(rest =~= seq!['\u{1100}', '\u{1161}']);
    crate::hangul::law_nfc_composes('\u{1100}', '\u{1161}', Seq::empty());
    assert(seq!['\u{1100}', '\u{1161}'] + Seq::<char>::empty() =~= seq!['\u{1100}', '\u{1161}']);
    assert(crate::hangul::spec_nfc(rest) == seq!['가']);
    assert(crate::hangul::spec_nfc(s) == seq!['\t'] + seq!['가']);
    let composed = seq!['\t', '가'];
    assert(seq!['\t'] + seq!['가'] =~= composed);
    assert(composed.drop_last() =~= seq!['\t']);
    assert(seq!['\t'].drop_last() =~= Seq::<char>::empty());
    assert(seq!['\t'].last() == '\t');
    assert(detab(Seq::<char>::empty()) == Seq::<char>::empty());
    assert(Seq::<char>::empty() + seq![' ', ' ', ' ', ' '] =~= seq![' ', ' ', ' ', ' ']);
    assert(detab(seq!['\t']) =~= seq![' ', ' ', ' ', ' ']);
    assert(composed.last() == '가');
    assert(detab(composed) =~= seq![' ', ' ', ' ', ' ', '가']);
}

} // verus!
