//! Diagnostics: where in the source, what kind, what message, and the
//! "did you mean" suggestion for misspelt names.

use vstd::prelude::*;
use vstd::string::StringSliceAdditionalSpecFns;

use crate::chars::chars_of;
use crate::msg;
use crate::report::Report;

verus! {

/// A place in a source: a 1-based line and the 0-based character columns
/// `col..end` on it.
#[derive(Clone, Copy, Debug, PartialEq, Eq, Structural)]
pub struct Span {
    pub line: usize,
    pub col: usize,
    pub end: usize,
}

impl Span {
    pub fn new(line: usize, col: usize, end: usize) -> (span: Span)
        ensures
            span == (Span { line, col, end }),
    {
        Span { line, col, end }
    }
}

/// A diagnostic: its kind, message, optional hint, place, and the unit
/// (source file) it belongs to when several are loaded.
#[derive(Clone, Debug)]
pub struct Diag {
    pub kind: &'static str,
    pub msg: String,
    pub hint: Option<String>,
    pub span: Span,
    pub unit: Option<usize>,
}

impl Diag {
    pub fn new(kind: &'static str, msg: String, span: Span) -> (made: Diag)
        ensures
            made.kind == kind,
            made.msg == msg,
            made.hint is None,
            made.span == span,
            made.unit is None,
    {
        Diag { kind, msg, hint: None, span, unit: None }
    }

    /// A lexical error.
    pub fn lex(msg: String, span: Span) -> (made: Diag)
        ensures
            made.kind == msg::LEX,
            made.msg == msg,
            made.hint is None,
            made.span == span,
            made.unit is None,
    {
        Diag::new(msg::LEX, msg, span)
    }

    /// A syntax error.
    pub fn syntax(msg: String, span: Span) -> (made: Diag)
        ensures
            made.kind == msg::SYNTAX,
            made.msg == msg,
            made.hint is None,
            made.span == span,
            made.unit is None,
    {
        Diag::new(msg::SYNTAX, msg, span)
    }

    /// An error about a name.
    pub fn name(msg: String, span: Span) -> (made: Diag)
        ensures
            made.kind == msg::NAME,
            made.msg == msg,
            made.hint is None,
            made.span == span,
            made.unit is None,
    {
        Diag::new(msg::NAME, msg, span)
    }

    /// The same diagnostic with a hint.
    pub fn with_hint(self, hint: String) -> (made: Diag)
        ensures
            made.kind == self.kind,
            made.msg == self.msg,
            made.hint == Some(hint),
            made.span == self.span,
            made.unit == self.unit,
    {
        let mut made = self;
        made.hint = Some(hint);
        made
    }

    /// The diagnostic in one line: its kind and message.
    pub fn to_string(&self) -> (out: String)
        ensures
            out@ == self.kind@ + ": "@ + self.msg@,
    {
        let mut out = crate::chars::owned(self.kind);
        crate::chars::push_str(&mut out, ": ");
        crate::chars::push_str(&mut out, self.msg.as_str());
        out
    }

    /// Renders the diagnostic against the source it points into.
    pub fn render(&self, source: &str, path: &str, colored: bool) -> (out: String)
        requires
            self.span.col < usize::MAX,
        ensures
            out@ == crate::report::render_text(
                self.kind@,
                self.msg@,
                crate::chars::view_opt(self.hint),
                path@,
                Some(source@),
                self.span.line as nat,
                self.span.col as nat,
                self.span.end as nat,
                colored,
            ),
    {
        let hint = match &self.hint {
            Some(hint) => Some(hint.as_str()),
            None => None,
        };
        let report = Report {
            kind: self.kind,
            msg: self.msg.as_str(),
            hint,
            path,
            source: Some(source),
            line: self.span.line,
            col: self.span.col,
            end: self.span.end,
        };
        report.render(colored)
    }
}

pub open spec fn min3(a: nat, b: nat, c: nat) -> nat {
    if a <= b && a <= c {
        a
    } else if b <= c {
        b
    } else {
        c
    }
}

/// The edit distance between two texts: the fewest single-character
/// insertions, deletions and substitutions that turn one into the other.
pub open spec fn edit_distance(left: Seq<char>, right: Seq<char>) -> nat
    decreases left.len() + right.len(),
{
    if left.len() == 0 {
        right.len()
    } else if right.len() == 0 {
        left.len()
    } else if left.last() == right.last() {
        edit_distance(left.drop_last(), right.drop_last())
    } else {
        1 + min3(
            edit_distance(left.drop_last(), right.drop_last()),
            edit_distance(left.drop_last(), right),
            edit_distance(left, right.drop_last()),
        )
    }
}

proof fn lemma_distance_bound(left: Seq<char>, right: Seq<char>)
    ensures
        edit_distance(left, right) <= if left.len() > right.len() {
            left.len()
        } else {
            right.len()
        },
    decreases left.len() + right.len(),
{
    if left.len() > 0 && right.len() > 0 {
        lemma_distance_bound(left.drop_last(), right.drop_last());
        lemma_distance_bound(left.drop_last(), right);
        lemma_distance_bound(left, right.drop_last());
    }
}

/// Edit distance by the row-at-a-time table.
fn distance(left: &Vec<char>, right: &Vec<char>) -> (cost: usize)
    ensures
        cost == edit_distance(left@, right@),
{
    let m = right.len();
    let mut row: Vec<usize> = Vec::new();
    row.push(0);
    assert(right@.take(0) == Seq::<char>::empty());
    let mut j: usize = 0;
    while j < m
        invariant
            j <= m,
            m == right@.len(),
            row@.len() == j + 1,
            forall|k: int| 0 <= k <= j ==> row@[k] == edit_distance(Seq::empty(), right@.take(k)),
        decreases m - j,
    {
        row.push(j + 1);
        assert(right@.take(j + 1).len() == j + 1);
        j = j + 1;
    }
    assert(row@.len() == m + 1);
    let mut i: usize = 0;
    while i < left.len()
        invariant
            i <= left@.len(),
            m == right@.len(),
            row@.len() == m + 1,
            forall|k: int| 0 <= k <= m ==> row@[k] == edit_distance(left@.take(i as int), right@.take(k)),
        decreases left@.len() - i,
    {
        let a = left[i];
        let ghost up = left@.take(i as int);
        let ghost here = left@.take(i + 1);
        assert(here.drop_last() == up);
        assert(here.last() == a);
        let mut corner = row[0];
        assert(here.len() > 0);
        assert(right@.take(0).len() == 0);
        row.set(0, i + 1);
        let mut k: usize = 0;
        while k < m
            invariant
                k <= m,
                m == right@.len(),
                i < left.len(),
                row@.len() == m + 1,
                up == left@.take(i as int),
                here == left@.take(i + 1),
                here.drop_last() == up,
                here.last() == a,
                corner == edit_distance(up, right@.take(k as int)),
                forall|x: int| 0 <= x <= k ==> row@[x] == edit_distance(here, right@.take(x)),
                forall|x: int| k < x <= m ==> row@[x] == edit_distance(up, right@.take(x)),
            decreases m - k,
        {
            let b = right[k];
            let ghost next_right = right@.take(k + 1);
            assert(next_right.drop_last() == right@.take(k as int));
            assert(next_right.last() == b);
            proof {
                lemma_distance_bound(up, right@.take(k as int));
                lemma_distance_bound(up, next_right);
                lemma_distance_bound(here, right@.take(k as int));
                assert(up.len() == i);
                assert(right@.take(k as int).len() == k);
                assert(edit_distance(up, right@.take(k as int)) <= if i > k {
                    i as int
                } else {
                    k as int
                });
                assert(i < usize::MAX && k < usize::MAX);
                assert(corner < usize::MAX);
                assert(edit_distance(here, next_right) == if a == b {
                    edit_distance(up, right@.take(k as int))
                } else {
                    1 + min3(
                        edit_distance(up, right@.take(k as int)),
                        edit_distance(up, next_right),
                        edit_distance(here, right@.take(k as int)),
                    )
                });
            }
            let next = if a == b {
                corner
            } else {
                let mut low = corner;
                if row[k] < low {
                    low = row[k];
                }
                if row[k + 1] < low {
                    low = row[k + 1];
                }
                low + 1
            };
            assert(next == edit_distance(here, next_right));
            corner = row[k + 1];
            row.set(k + 1, next);
            k = k + 1;
        }
        i = i + 1;
    }
    assert(left@.take(left@.len() as int) == left@);
    assert(right@.take(m as int) == right@);
    row[m]
}

} // verus!
verus! {

/// The most edits a name may be away from a known one to be suggested:
/// half its length, and at least one.
pub open spec fn suggestion_limit(word: Seq<char>) -> nat {
    if word.len() / 2 >= 1 {
        word.len() / 2
    } else {
        1
    }
}

pub open spec fn close_enough(word: Seq<char>, found: &str) -> bool {
    edit_distance(word, found@) <= suggestion_limit(word)
}

/// The length of a text in bytes, as `str::len` gives it.
pub open spec fn byte_len(text: &str) -> usize {
    text.spec_bytes().len() as usize
}

/// `found` ranks strictly before `other`: fewer edits, or as many edits and
/// a shorter text (in bytes).
pub open spec fn ranks_before(word: Seq<char>, found: &str, other: &str) -> bool {
    edit_distance(word, found@) < edit_distance(word, other@) || (edit_distance(word, found@)
        == edit_distance(word, other@) && byte_len(found) < byte_len(other))
}

/// The known name closest to `word`, if one is close enough: the first of
/// those with the fewest edits and then the shortest text.
pub fn suggest<'a>(word: &str, known: &[&'a str]) -> (found: Option<&'a str>)
    ensures
        found is None <==> forall|i: int| 0 <= i < known@.len() ==> !close_enough(word@, known@[i]),
        found matches Some(best) ==> exists|i: int|
            #![trigger known@[i]]
            0 <= i < known@.len() && best == known@[i] && close_enough(word@, known@[i]) && (forall|
                j: int,
            |
                0 <= j < i && close_enough(word@, #[trigger] known@[j]) ==> ranks_before(
                    word@,
                    known@[i],
                    known@[j],
                )) && (forall|j: int|
                i < j < known@.len() && close_enough(word@, #[trigger] known@[j]) ==> !ranks_before(
                    word@,
                    known@[j],
                    known@[i],
                )),
{
    let letters = chars_of(word);
    let half = letters.len() / 2;
    let limit = if half >= 1 {
        half
    } else {
        1
    };
    let mut best: Option<(usize, usize, usize)> = None;
    let mut at: usize = 0;
    while at < known.len()
        invariant
            at <= known@.len(),
            letters@ == word@,
            limit == suggestion_limit(word@),
            match best {
                None => forall|j: int| 0 <= j < at ==> !close_enough(word@, known@[j]),
                Some((i, cost, size)) => {
                    &&& i < at
                    &&& cost == edit_distance(word@, known@[i as int]@)
                    &&& size == byte_len(known@[i as int])
                    &&& close_enough(word@, known@[i as int])
                    &&& forall|j: int|
                        0 <= j < i && close_enough(word@, #[trigger] known@[j]) ==> ranks_before(
                            word@,
                            known@[i as int],
                            known@[j],
                        )
                    &&& forall|j: int|
                        i < j < at && close_enough(word@, #[trigger] known@[j]) ==> !ranks_before(
                            word@,
                            known@[j],
                            known@[i as int],
                        )
                },
            },
        decreases known@.len() - at,
    {
        let candidate = known[at];
        let cost = distance(&letters, &chars_of(candidate));
        if cost <= limit {
            let size = candidate.len();
            let better = match best {
                None => true,
                Some((_, kept_cost, kept_size)) => cost < kept_cost || (cost == kept_cost && size
                    < kept_size),
            };
            let ghost old_best = best;
            if better {
                best = Some((at, cost, size));
                proof {
                    if let Some((i, kept_cost, kept_size)) = old_best {
                        assert forall|j: int|
                            0 <= j < at && close_enough(word@, #[trigger] known@[j]) implies ranks_before(
                                word@,
                                known@[at as int],
                                known@[j],
                            ) by {
                            if j < i {
                                assert(ranks_before(word@, known@[i as int], known@[j]));
                            } else if j > i {
                                assert(!ranks_before(word@, known@[j], known@[i as int]));
                            }
                        }
                    }
                }
            } else {
                proof {
                    if let Some((i, kept_cost, kept_size)) = old_best {
                        assert(!ranks_before(word@, known@[at as int], known@[i as int]));
                    }
                }
            }
        }
        at += 1;
    }
    match best {
        Some((i, _, _)) => Some(known[i]),
        None => None,
    }
}

} // verus!
verus! {

/// The edit distance is zero from a text to itself, is the length of the
/// other text from the empty one, and does not depend on the order of the
/// two texts.
pub proof fn law_distance_metric(left: Seq<char>, right: Seq<char>)
    ensures
        edit_distance(left, left) == 0,
        edit_distance(left, Seq::empty()) == left.len(),
        edit_distance(Seq::empty(), right) == right.len(),
        edit_distance(left, right) == edit_distance(right, left),
    decreases left.len() + right.len(),
{
    lemma_distance_self(left);
    lemma_distance_symmetric(left, right);
}

proof fn lemma_distance_self(text: Seq<char>)
    ensures
        edit_distance(text, text) == 0,
    decreases text.len(),
{
    if text.len() > 0 {
        lemma_distance_self(text.drop_last());
    }
}

proof fn lemma_distance_symmetric(left: Seq<char>, right: Seq<char>)
    ensures
        edit_distance(left, right) == edit_distance(right, left),
    decreases left.len() + right.len(),
{
    if left.len() > 0 && right.len() > 0 {
        lemma_distance_symmetric(left.drop_last(), right.drop_last());
        lemma_distance_symmetric(left.drop_last(), right);
        lemma_distance_symmetric(left, right.drop_last());
    }
}

} // verus!
verus! {

proof fn lemma_kitten()
    ensures
        edit_distance(seq!['k', 'i', 't', 't', 'e', 'n'], seq!['s', 'i', 't', 't', 'i', 'n', 'g']) == 3,
{
    assert(seq!['k'].drop_last() =~= Seq::<char>::empty());
    assert(seq!['k', 'i'].drop_last() =~= seq!['k']);
    assert(seq!['k', 'i', 't'].drop_last() =~= seq!['k', 'i']);
    assert(seq!['k', 'i', 't', 't'].drop_last() =~= seq!['k', 'i', 't']);
    assert(seq!['k', 'i', 't', 't', 'e'].drop_last() =~= seq!['k', 'i', 't', 't']);
    assert(seq!['k', 'i', 't', 't', 'e', 'n'].drop_last() =~= seq!['k', 'i', 't', 't', 'e']);
    assert(seq!['s'].drop_last() =~= Seq::<char>::empty());
    assert(seq!['s', 'i'].drop_last() =~= seq!['s']);
    assert(seq!['s', 'i', 't'].drop_last() =~= seq!['s', 'i']);
    assert(seq!['s', 'i', 't', 't'].drop_last() =~= seq!['s', 'i', 't']);
    assert(seq!['s', 'i', 't', 't', 'i'].drop_last() =~= seq!['s', 'i', 't', 't']);
    assert(seq!['s', 'i', 't', 't', 'i', 'n'].drop_last() =~= seq!['s', 'i', 't', 't', 'i']);
    assert(seq!['s', 'i', 't', 't', 'i', 'n', 'g'].drop_last() =~= seq!['s', 'i', 't', 't', 'i', 'n']);
    assert(edit_distance(Seq::<char>::empty(), Seq::<char>::empty()) == 0);
    assert(edit_distance(Seq::<char>::empty(), seq!['s']) == 1);
    assert(edit_distance(Seq::<char>::empty(), seq!['s', 'i']) == 2);
    assert(edit_distance(Seq::<char>::empty(), seq!['s', 'i', 't']) == 3);
    assert(edit_distance(Seq::<char>::empty(), seq!['s', 'i', 't', 't']) == 4);
    assert(edit_distance(Seq::<char>::empty(), seq!['s', 'i', 't', 't', 'i']) == 5);
    assert(edit_distance(Seq::<char>::empty(), seq!['s', 'i', 't', 't', 'i', 'n']) == 6);
    assert(edit_distance(Seq::<char>::empty(), seq!['s', 'i', 't', 't', 'i', 'n', 'g']) == 7);
    assert(edit_distance(seq!['k'], Seq::<char>::empty()) == 1);
    assert(edit_distance(seq!['k'], seq!['s']) == 1);
    assert(edit_distance(seq!['k'], seq!['s', 'i']) == 2);
    assert(edit_distance(seq!['k'], seq!['s', 'i', 't']) == 3);
    assert(edit_distance(seq!['k'], seq!['s', 'i', 't', 't']) == 4);
    assert(edit_distance(seq!['k'], seq!['s', 'i', 't', 't', 'i']) == 5);
    assert(edit_distance(seq!['k'], seq!['s', 'i', 't', 't', 'i', 'n']) == 6);
    assert(edit_distance(seq!['k'], seq!['s', 'i', 't', 't', 'i', 'n', 'g']) == 7);
    assert(edit_distance(seq!['k', 'i'], Seq::<char>::empty()) == 2);
    assert(edit_distance(seq!['k', 'i'], seq!['s']) == 2);
    assert(edit_distance(seq!['k', 'i'], seq!['s', 'i']) == 1);
    assert(edit_distance(seq!['k', 'i'], seq!['s', 'i', 't']) == 2);
    assert(edit_distance(seq!['k', 'i'], seq!['s', 'i', 't', 't']) == 3);
    assert(edit_distance(seq!['k', 'i'], seq!['s', 'i', 't', 't', 'i']) == 4);
    assert(edit_distance(seq!['k', 'i'], seq!['s', 'i', 't', 't', 'i', 'n']) == 5);
    assert(edit_distance(seq!['k', 'i'], seq!['s', 'i', 't', 't', 'i', 'n', 'g']) == 6);
    assert(edit_distance(seq!['k', 'i', 't'], Seq::<char>::empty()) == 3);
    assert(edit_distance(seq!['k', 'i', 't'], seq!['s']) == 3);
    assert(edit_distance(seq!['k', 'i', 't'], seq!['s', 'i']) == 2);
    assert(edit_distance(seq!['k', 'i', 't'], seq!['s', 'i', 't']) == 1);
    assert(edit_distance(seq!['k', 'i', 't'], seq!['s', 'i', 't', 't']) == 2);
    assert(edit_distance(seq!['k', 'i', 't'], seq!['s', 'i', 't', 't', 'i']) == 3);
    assert(edit_distance(seq!['k', 'i', 't'], seq!['s', 'i', 't', 't', 'i', 'n']) == 4);
    assert(edit_distance(seq!['k', 'i', 't'], seq!['s', 'i', 't', 't', 'i', 'n', 'g']) == 5);
    assert(edit_distance(seq!['k', 'i', 't', 't'], Seq::<char>::empty()) == 4);
    assert(edit_distance(seq!['k', 'i', 't', 't'], seq!['s']) == 4);
    assert(edit_distance(seq!['k', 'i', 't', 't'], seq!['s', 'i']) == 3);
    assert(edit_distance(seq!['k', 'i', 't', 't'], seq!['s', 'i', 't']) == 2);
    assert(edit_distance(seq!['k', 'i', 't', 't'], seq!['s', 'i', 't', 't']) == 1);
    assert(edit_distance(seq!['k', 'i', 't', 't'], seq!['s', 'i', 't', 't', 'i']) == 2);
    assert(edit_distance(seq!['k', 'i', 't', 't'], seq!['s', 'i', 't', 't', 'i', 'n']) == 3);
    assert(edit_distance(seq!['k', 'i', 't', 't'], seq!['s', 'i', 't', 't', 'i', 'n', 'g']) == 4);
    assert(edit_distance(seq!['k', 'i', 't', 't', 'e'], Seq::<char>::empty()) == 5);
    assert(edit_distance(seq!['k', 'i', 't', 't', 'e'], seq!['s']) == 5);
    assert(edit_distance(seq!['k', 'i', 't', 't', 'e'], seq!['s', 'i']) == 4);
    assert(edit_distance(seq!['k', 'i', 't', 't', 'e'], seq!['s', 'i', 't']) == 3);
    assert(edit_distance(seq!['k', 'i', 't', 't', 'e'], seq!['s', 'i', 't', 't']) == 2);
    assert(edit_distance(seq!['k', 'i', 't', 't', 'e'], seq!['s', 'i', 't', 't', 'i']) == 2);
    assert(edit_distance(seq!['k', 'i', 't', 't', 'e'], seq!['s', 'i', 't', 't', 'i', 'n']) == 3);
    assert(edit_distance(seq!['k', 'i', 't', 't', 'e'], seq!['s', 'i', 't', 't', 'i', 'n', 'g']) == 4);
    assert(edit_distance(seq!['k', 'i', 't', 't', 'e', 'n'], Seq::<char>::empty()) == 6);
    assert(edit_distance(seq!['k', 'i', 't', 't', 'e', 'n'], seq!['s']) == 6);
    assert(edit_distance(seq!['k', 'i', 't', 't', 'e', 'n'], seq!['s', 'i']) == 5);
    assert(edit_distance(seq!['k', 'i', 't', 't', 'e', 'n'], seq!['s', 'i', 't']) == 4);
    assert(edit_distance(seq!['k', 'i', 't', 't', 'e', 'n'], seq!['s', 'i', 't', 't']) == 3);
    assert(edit_distance(seq!['k', 'i', 't', 't', 'e', 'n'], seq!['s', 'i', 't', 't', 'i']) == 3);
    assert(edit_distance(seq!['k', 'i', 't', 't', 'e', 'n'], seq!['s', 'i', 't', 't', 'i', 'n']) == 2);
    assert(edit_distance(seq!['k', 'i', 't', 't', 'e', 'n'], seq!['s', 'i', 't', 't', 'i', 'n', 'g']) == 3);
}

proof fn lemma_gana()
    ensures
        edit_distance(seq!['가', '나'], seq!['나']) == 1,
{
    assert(seq!['가'].drop_last() =~= Seq::<char>::empty());
    assert(seq!['가', '나'].drop_last() =~= seq!['가']);
    assert(seq!['나'].drop_last() =~= Seq::<char>::empty());
    assert(edit_distance(Seq::<char>::empty(), Seq::<char>::empty()) == 0);
    assert(edit_distance(Seq::<char>::empty(), seq!['나']) == 1);
    assert(edit_distance(seq!['가'], Seq::<char>::empty()) == 1);
    assert(edit_distance(seq!['가'], seq!['나']) == 1);
    assert(edit_distance(seq!['가', '나'], Seq::<char>::empty()) == 2);
    assert(edit_distance(seq!['가', '나'], seq!['나']) == 1);
}

/// Two worked distances: kitten to sitting takes three edits, 가나 to 나
/// one.
pub proof fn law_distance_examples()
    ensures
        edit_distance(seq!['k', 'i', 't', 't', 'e', 'n'], seq!['s', 'i', 't', 't', 'i', 'n', 'g']) == 3,
        edit_distance(seq!['가', '나'], seq!['나']) == 1,
{
    lemma_kitten();
    lemma_gana();
}

} // verus!
