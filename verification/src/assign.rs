//! Definite assignment: which locals surely hold a value at a point, and
//! the error for reading one that may not.

use vstd::prelude::*;

use crate::chars::{owned, same_text};
use crate::ast::{CallExpr, Expr, LoopKind, Selector, Slot, Stmt, Target, TemplatePart};
use crate::diag::{Diag, Span};
use crate::words::string_view;

verus! {

/// The names surely assigned after every one of `branches`: those of the
/// first that all the others also have, in the first's order; with no
/// branch, `fallback`.
pub open spec fn spec_meet(branches: Seq<Seq<Seq<char>>>, fallback: Seq<Seq<char>>) -> Seq<Seq<char>> {
    if branches.len() == 0 {
        fallback
    } else {
        branches[0].filter(|name: Seq<char>| in_others(branches, name))
    }
}

/// Every branch after the first has `name`.
pub open spec fn in_others(branches: Seq<Seq<Seq<char>>>, name: Seq<char>) -> bool {
    forall|k: int| 1 <= k < branches.len() ==> #[trigger] branches[k].contains(name)
}

pub open spec fn lives_view(found: Seq<Vec<String>>) -> Seq<Seq<Seq<char>>> {
    Seq::new(found.len(), |i: int| string_view(found[i]@))
}

fn contains_name(found: &Vec<String>, name: &str) -> (present: bool)
    ensures
        present == string_view(found@).contains(name@),
{
    let mut at: usize = 0;
    while at < found.len()
        invariant
            at <= found@.len(),
            forall|j: int| 0 <= j < at ==> found@[j]@ != name@,
        decreases found@.len() - at,
    {
        if same_text(found[at].as_str(), name) {
            assert(string_view(found@)[at as int] == name@);
            return true;
        }
        at += 1;
    }
    assert forall|j: int| 0 <= j < found@.len() implies string_view(found@)[j] != name@ by {
        assert(string_view(found@)[j] == found@[j]@);
    }
    false
}

fn copy_names(found: &Vec<String>) -> (out: Vec<String>)
    ensures
        string_view(out@) == string_view(found@),
{
    let mut out: Vec<String> = Vec::new();
    let mut at: usize = 0;
    while at < found.len()
        invariant
            at <= found@.len(),
            string_view(out@) == string_view(found@).take(at as int),
        decreases found@.len() - at,
    {
        let ghost before = string_view(out@);
        out.push(owned(found[at].as_str()));
        assert(string_view(out@) =~= before.push(found@[at as int]@));
        assert(string_view(found@).take(at + 1) =~= string_view(found@).take(at as int).push(found@[at as int]@));
        at += 1;
    }
    assert(string_view(found@).take(found@.len() as int) =~= string_view(found@));
    out
}

/// The names surely assigned after all of `branches` (see `spec_meet`).
pub fn meet(branches: Vec<Vec<String>>, fallback: &Vec<String>) -> (found: Vec<String>)
    ensures
        string_view(found@) == spec_meet(lives_view(branches@), string_view(fallback@)),
{
    let ghost all = lives_view(branches@);
    if branches.len() == 0 {
        return copy_names(fallback);
    }
    let first = &branches[0];
    let ghost keep = |name: Seq<char>| in_others(all, name);
    let ghost source = string_view(first@);
    assert(all[0] == source);
    let mut found: Vec<String> = Vec::new();
    let mut at: usize = 0;
    assert(source.take(0) =~= Seq::<Seq<char>>::empty());
    assert(source.take(0).filter(keep) =~= Seq::<Seq<char>>::empty()) by {
        reveal(Seq::filter);
    }
    while at < first.len()
        invariant
            at <= first@.len(),
            all == lives_view(branches@),
            source == string_view(first@),
            all.len() == branches@.len(),
            branches@.len() >= 1,
            keep == (|name: Seq<char>| in_others(all, name)),
            first == &branches@[0],
            string_view(found@) == source.take(at as int).filter(keep),
        decreases first@.len() - at,
    {
        let name = first[at].as_str();
        let mut every = true;
        let mut k: usize = 1;
        while k < branches.len()
            invariant
                1 <= k <= branches@.len(),
                all == lives_view(branches@),
                every == forall|j: int| 1 <= j < k ==> #[trigger] all[j].contains(name@),
            decreases branches@.len() - k,
        {
            assert(all[k as int] == string_view(branches@[k as int]@));
            if !contains_name(&branches[k], name) {
                every = false;
            }
            k += 1;
        }
        assert(source[at as int] == name@);
        assert(every == keep(name@));
        assert(source.take(at + 1) =~= source.take(at as int).push(name@));
        proof {
            source.take(at as int).lemma_filter_push(name@, keep);
        }
        let ghost before = string_view(found@);
        if every {
            found.push(owned(name));
            assert(string_view(found@) =~= before.push(name@));
        }
        at += 1;
    }
    assert(source.take(first@.len() as int) =~= source);
    found
}

/// A name may be read where it is surely assigned, or where it is no
/// local; otherwise each such name is reported once.
pub struct Check<'a> {
    pub locals: &'a Vec<String>,
    pub errors: Vec<Diag>,
    pub seen: Vec<String>,
}

impl<'a> Check<'a> {
    /// Notes a read of `name` at `span` with `live` surely assigned.
    pub fn name(&mut self, name: &str, span: Span, live: &Vec<String>)
        ensures
            final(self).locals == old(self).locals,
            if !string_view(old(self).locals@).contains(name@) || string_view(live@).contains(name@)
                || string_view(old(self).seen@).contains(name@) {
                &&& final(self).errors@ == old(self).errors@
                &&& final(self).seen@ == old(self).seen@
            } else {
                &&& string_view(final(self).seen@) == string_view(old(self).seen@).push(name@)
                &&& final(self).errors@.len() == old(self).errors@.len() + 1
                &&& final(self).errors@.take(old(self).errors@.len() as int) == old(self).errors@
                &&& final(self).errors@.last().kind == crate::msg::NAME
                &&& final(self).errors@.last().msg@ == "'"@ + name@ + "'에 값이 대입되지 않았을 수 있음"@
                &&& final(self).errors@.last().span == span
            },
            noted(*old(self), *final(self), gap(name@, span, names_of(live@))),
    {
        let ghost start = *self;
        proof {
            assert(names_of(live@).contains(name@) == string_view(live@).contains(name@));
            assert(names_of(self.locals@).contains(name@) == string_view(self.locals@).contains(name@));
            assert(names_of(self.seen@).contains(name@) == string_view(self.seen@).contains(name@));
            assert(read_names(seq![]) =~= Set::<Seq<char>>::empty());
        }
        if !contains_name(self.locals, name) || contains_name(live, name) {
            proof {
                lemma_noted_none(start);
                let reads = gap(name@, span, names_of(live@));
                if reads.len() > 0 {
                    assert(reads.drop_last() =~= Seq::<(Seq<char>, Span)>::empty());
                    lemma_read_names_single((name@, span));
                    assert(seen_after(reads, names_of(start.locals@), names_of(start.seen@)) =~= names_of(start.seen@));
                }
            }
            return;
        }
        if contains_name(&self.seen, name) {
            proof {
                let reads = gap(name@, span, names_of(live@));
                lemma_noted_none(start);
                assert(reads.drop_last() =~= Seq::<(Seq<char>, Span)>::empty());
                lemma_read_names_single((name@, span));
                assert(seen_after(reads, names_of(start.locals@), names_of(start.seen@)) =~= names_of(start.seen@));
            }
            return;
        }
        let ghost before = string_view(self.seen@);
        self.seen.push(owned(name));
        assert(string_view(self.seen@) =~= before.push(name@));
        let ghost errors = self.errors@;
        self.errors.push(Diag::name(crate::msg::not_assigned(name), span));
        assert(self.errors@.take(errors.len() as int) =~= errors);
        proof {
            let reads = gap(name@, span, names_of(live@));
            assert(reads =~= seq![(name@, span)]);
            assert(reads.drop_last() =~= Seq::<(Seq<char>, Span)>::empty());
            lemma_read_names_single((name@, span));
            assert(read_names(reads.drop_last()) =~= Set::<Seq<char>>::empty());
            assert(reported(reads.drop_last(), names_of(start.locals@), names_of(start.seen@)) =~= Seq::<(Seq<char>, Span)>::empty());
            assert(names_of(start.locals@).contains(name@));
            assert(!names_of(start.seen@).contains(name@));
            assert(reported(reads, names_of(start.locals@), names_of(start.seen@)) =~= seq![(name@, span)]);
            assert(self.errors@.skip(errors.len() as int) =~= seq![self.errors@.last()]);
            assert forall|x: Seq<char>| names_of(self.seen@).contains(x) <==> seen_after(reads, names_of(start.locals@), names_of(start.seen@)).contains(x) by {
                assert(before.push(name@).contains(x) <==> (before.contains(x) || x == name@)) by {
                    if x == name@ {
                        assert(before.push(name@)[before.len() as int] == x);
                    }
                    if before.contains(x) {
                        let k = choose|k: int| 0 <= k < before.len() && before[k] == x;
                        assert(before.push(name@)[k] == x);
                    }
                }
            }
            assert(names_of(self.seen@) =~= seen_after(reads, names_of(start.locals@), names_of(start.seen@)));
        }
    }
}

} // verus!
verus! {

/// After several branches, a name is surely assigned exactly when every
/// branch assigned it.
pub proof fn law_meet_is_intersection(branches: Seq<Seq<Seq<char>>>, fallback: Seq<Seq<char>>, name: Seq<char>)
    requires
        branches.len() > 0,
    ensures
        spec_meet(branches, fallback).contains(name) <==> forall|k: int|
            0 <= k < branches.len() ==> #[trigger] branches[k].contains(name),
{
    let keep = |n: Seq<char>| in_others(branches, n);
    let found = branches[0].filter(keep);
    if found.contains(name) {
        branches[0].lemma_filter_contains_rev(keep, name);
        let i = choose|i: int| 0 <= i < found.len() && found[i] == name;
        branches[0].lemma_filter_pred(keep, i);
        assert forall|k: int| 0 <= k < branches.len() implies #[trigger] branches[k].contains(name) by {
            if k >= 1 {
                assert(in_others(branches, name));
            }
        }
    }
    if forall|k: int| 0 <= k < branches.len() ==> #[trigger] branches[k].contains(name) {
        assert(branches[0].contains(name));
        let i = choose|i: int| 0 <= i < branches[0].len() && branches[0][i] == name;
        assert(in_others(branches, name));
        branches[0].lemma_filter_contains(keep, i);
    }
}

} // verus!
verus! {

/// The names a list of strings holds, as a set.
pub open spec fn names_of(found: Seq<String>) -> Set<Seq<char>> {
    Set::new(|name: Seq<char>| string_view(found).contains(name))
}

/// A read of `name` at `span` while `live` is surely assigned: nothing if
/// it is, else the read itself.
pub open spec fn gap(name: Seq<char>, span: Span, live: Set<Seq<char>>) -> Seq<(Seq<char>, Span)> {
    if live.contains(name) {
        seq![]
    } else {
        seq![(name, span)]
    }
}

pub open spec fn ordinal_mark() -> Seq<char> {
    seq!['번', '째']
}

/// `text` without a leading sign.
pub open spec fn unsigned_part(text: Seq<char>) -> Seq<char> {
    if text.len() > 0 && (text[0] == '-' || text[0] == '+') {
        text.skip(1)
    } else {
        text
    }
}

/// At least one character, all ASCII digits.
pub open spec fn all_digits(body: Seq<char>) -> bool {
    &&& body.len() > 0
    &&& forall|k: int| 0 <= k < body.len() ==> crate::lex::digit(#[trigger] body[k])
}

/// A string that std's `i64` parser accepts: an optional sign, then at
/// least one ASCII digit, with a value that fits.
pub open spec fn integer_text(text: Seq<char>) -> bool {
    &&& all_digits(unsigned_part(text))
    &&& if text.len() > 0 && text[0] == '-' {
        crate::lex::digits_value(unsigned_part(text)) <= 0x8000_0000_0000_0000
    } else {
        crate::lex::digits_value(unsigned_part(text)) <= 0x7fff_ffff_ffff_ffff
    }
}

/// The name an ordinal field (`자리번째`) counts by, when its head is not a
/// numeral.
pub open spec fn ordinal_name(field: Seq<char>) -> Option<Seq<char>> {
    if field.len() >= 2 && field.skip(field.len() - 2) == ordinal_mark()
        && !integer_text(field.take(field.len() - 2)) {
        Some(field.take(field.len() - 2))
    } else {
        None
    }
}

/// The reads of names in an expression, in the order the check visits
/// them, that happen while the name is not surely assigned.
pub open spec fn expr_gaps(expr: Expr, live: Set<Seq<char>>) -> Seq<(Seq<char>, Span)>
    decreases expr,
{
    match expr {
        Expr::Literal { .. } => seq![],
        Expr::Name { name, span } => gap(name@, span, live),
        Expr::Table { items, entries, .. } => exprs_gaps(items@, live) + entries_gaps(entries@, live),
        Expr::Template { parts, .. } => parts_gaps(parts@, live),
        Expr::Field { owner, name, span } => expr_gaps(*owner, live) + match ordinal_name(name@) {
            Some(head) => gap(head, span, live),
            None => seq![],
        },
        Expr::Pick { owner, key, .. } => expr_gaps(*owner, live) + expr_gaps(*key, live),
        Expr::Spot { owner, place, .. } => expr_gaps(*owner, live) + expr_gaps(*place, live),
        Expr::Call(call) => slots_gaps(call.slots@, live),
        Expr::Passive(passive) => expr_gaps(passive.head, live) + slots_gaps(passive.slots@, live),
        Expr::And { left, right, .. } => expr_gaps(*left, live) + expr_gaps(*right, live),
        Expr::Or { left, right, .. } => expr_gaps(*left, live) + expr_gaps(*right, live),
    }
}

pub open spec fn exprs_gaps(items: Seq<Expr>, live: Set<Seq<char>>) -> Seq<(Seq<char>, Span)>
    decreases items,
{
    if items.len() == 0 {
        seq![]
    } else {
        exprs_gaps(items.drop_last(), live) + expr_gaps(items.last(), live)
    }
}

pub open spec fn entries_gaps(entries: Seq<(String, Expr)>, live: Set<Seq<char>>) -> Seq<(Seq<char>, Span)>
    decreases entries,
{
    if entries.len() == 0 {
        seq![]
    } else {
        entries_gaps(entries.drop_last(), live) + expr_gaps(entries.last().1, live)
    }
}

pub open spec fn parts_gaps(parts: Seq<TemplatePart>, live: Set<Seq<char>>) -> Seq<(Seq<char>, Span)>
    decreases parts,
{
    if parts.len() == 0 {
        seq![]
    } else {
        parts_gaps(parts.drop_last(), live) + match parts.last() {
            TemplatePart::Text(_) => seq![],
            TemplatePart::Expr(inner) => expr_gaps(inner, live),
        }
    }
}

pub open spec fn slots_gaps(slots: Seq<Slot>, live: Set<Seq<char>>) -> Seq<(Seq<char>, Span)>
    decreases slots,
{
    if slots.len() == 0 {
        seq![]
    } else {
        slots_gaps(slots.drop_last(), live) + expr_gaps(slots.last().expr, live)
    }
}

/// The names that some read of `reads` makes.
pub open spec fn read_names(reads: Seq<(Seq<char>, Span)>) -> Set<Seq<char>> {
    Set::new(|name: Seq<char>| exists|i: int| 0 <= i < reads.len() && #[trigger] reads[i].0 == name)
}

/// Of `reads`, those reported: the first read of each local that was not
/// reported before (`seen`).
pub open spec fn reported(reads: Seq<(Seq<char>, Span)>, locals: Set<Seq<char>>, seen: Set<Seq<char>>) -> Seq<(Seq<char>, Span)>
    decreases reads.len(),
{
    if reads.len() == 0 {
        seq![]
    } else {
        let prefix = reads.drop_last();
        let read = reads.last();
        reported(prefix, locals, seen) + if locals.contains(read.0) && !seen.contains(read.0)
            && !read_names(prefix).contains(read.0) {
            seq![read]
        } else {
            seq![]
        }
    }
}

/// The names reported by the end of `reads`.
pub open spec fn seen_after(reads: Seq<(Seq<char>, Span)>, locals: Set<Seq<char>>, seen: Set<Seq<char>>) -> Set<Seq<char>> {
    seen.union(read_names(reads).intersect(locals))
}

/// `errors` are the diagnostics of `reads`, one each, in order.
pub open spec fn reports(errors: Seq<Diag>, reads: Seq<(Seq<char>, Span)>) -> bool {
    &&& errors.len() == reads.len()
    &&& forall|i: int| 0 <= i < reads.len() ==> {
        &&& (#[trigger] errors[i]).kind == crate::msg::NAME
        &&& errors[i].msg@ == "'"@ + reads[i].0 + "'에 값이 대입되지 않았을 수 있음"@
        &&& errors[i].hint is None
        &&& errors[i].span == reads[i].1
    }
}

/// The intersection of the sets in `ends`.
pub open spec fn meet_sets(ends: Seq<Set<Seq<char>>>) -> Set<Seq<char>> {
    Set::new(|name: Seq<char>| forall|k: int| 0 <= k < ends.len() ==> #[trigger] ends[k].contains(name))
}

/// The reads a selector makes.
pub open spec fn selectors_gaps(fields: Seq<Selector>, live: Set<Seq<char>>) -> Seq<(Seq<char>, Span)>
    decreases fields,
{
    if fields.len() == 0 {
        seq![]
    } else {
        selectors_gaps(fields.drop_last(), live) + match fields.last() {
            Selector::Name(_) => seq![],
            Selector::Pick(key) => expr_gaps(key, live),
            Selector::Spot(place) => expr_gaps(place, live),
        }
    }
}

/// One declaration after another: each value is read first; a bare name
/// becomes assigned, while a target with steps reads its root and keys.
pub open spec fn assigns_flow(assigns: Seq<(Target, Expr)>, live: Set<Seq<char>>) -> (Seq<(Seq<char>, Span)>, Set<Seq<char>>)
    decreases assigns.len(),
{
    if assigns.len() == 0 {
        (seq![], live)
    } else {
        let (reads, now) = assigns_flow(assigns.drop_last(), live);
        let (target, value) = assigns.last();
        let read = reads + expr_gaps(value, now);
        if target.fields@.len() == 0 {
            (read, now.insert(target.root@))
        } else {
            (read + gap(target.root@, target.span, now) + selectors_gaps(target.fields@, now), now)
        }
    }
}

pub open spec fn calls_gaps(calls: Seq<CallExpr>, live: Set<Seq<char>>) -> Seq<(Seq<char>, Span)>
    decreases calls.len(),
{
    if calls.len() == 0 {
        seq![]
    } else {
        calls_gaps(calls.drop_last(), live) + slots_gaps(calls.last().slots@, live)
    }
}

/// A call of `종료하다` ends the program: nothing after it runs.
pub open spec fn ends_program(calls: Seq<CallExpr>) -> bool {
    exists|i: int| 0 <= i < calls.len() && (#[trigger] calls[i]).verb@ == "종료하다"@
}

/// What running a statement with `live` surely assigned does: the reads
/// it makes of names that may be unassigned, what is surely assigned
/// after it, and whether control can go on past it.
pub open spec fn stmt_flow(statement: Stmt, live: Set<Seq<char>>) -> (Seq<(Seq<char>, Span)>, Set<Seq<char>>, bool)
    decreases statement,
{
    match statement {
        Stmt::Declare { assigns, .. } => {
            let (reads, now) = assigns_flow(assigns@, live);
            (reads, now, true)
        },
        Stmt::Exec { calls, .. } => (calls_gaps(calls@, live), live, !ends_program(calls@)),
        Stmt::Value { expr, .. } => (expr_gaps(expr, live), live, true),
        Stmt::Return { value, .. } => (expr_gaps(value, live), live, false),
        Stmt::Break { .. } => (seq![], live, false),
        Stmt::Continue { .. } => (seq![], live, false),
        Stmt::If { branches, otherwise, .. } => {
            let (reads, ends) = branches_flow(branches@, live);
            match otherwise {
                Some(body) => {
                    let (more, after, on) = block_flow(body@, live);
                    let all = if on { ends.push(after) } else { ends };
                    if all.len() == 0 {
                        (reads + more, live, false)
                    } else {
                        (reads + more, meet_sets(all), true)
                    }
                },
                None => (reads, meet_sets(ends.push(live)), true),
            }
        },
        Stmt::Loop { kind, body, .. } => match kind {
            LoopKind::Range { variable, start, stop, step } => {
                let head = expr_gaps(start, live) + expr_gaps(stop, live) + match step {
                    Some(by) => expr_gaps(by, live),
                    None => seq![],
                };
                let inner = live.insert(variable@);
                (head + block_flow(body@, inner).0, inner, true)
            },
            LoopKind::Each { variable, over } => {
                let inner = live.insert(variable@);
                (expr_gaps(over, live) + block_flow(body@, inner).0, live, true)
            },
            LoopKind::While { test } => (expr_gaps(test, live) + block_flow(body@, live).0, live, true),
        },
        Stmt::Define { .. } => (seq![], live, true),
        Stmt::Noun { .. } => (seq![], live, true),
        Stmt::Import { .. } => (seq![], live, true),
    }
}

/// Statements in turn, until one after which control cannot go on.
pub open spec fn block_flow(body: Seq<Stmt>, live: Set<Seq<char>>) -> (Seq<(Seq<char>, Span)>, Set<Seq<char>>, bool)
    decreases body,
{
    if body.len() == 0 {
        (seq![], live, true)
    } else {
        let (reads, now, on) = block_flow(body.drop_last(), live);
        if !on {
            (reads, now, on)
        } else {
            let (more, after, still) = stmt_flow(body.last(), now);
            (reads + more, after, still)
        }
    }
}

/// The branches of a condition, each entered with `entry`: their reads,
/// and what is surely assigned at the end of each that goes on.
pub open spec fn branches_flow(branches: Seq<(Expr, Vec<Stmt>)>, entry: Set<Seq<char>>) -> (Seq<(Seq<char>, Span)>, Seq<Set<Seq<char>>>)
    decreases branches,
{
    if branches.len() == 0 {
        (seq![], seq![])
    } else {
        let (reads, ends) = branches_flow(branches.drop_last(), entry);
        let (test, body) = branches.last();
        let (more, after, on) = block_flow(body@, entry);
        (reads + expr_gaps(test, entry) + more, if on { ends.push(after) } else { ends })
    }
}

} // verus!
verus! {

proof fn lemma_read_names_single(read: (Seq<char>, Span))
    ensures
        read_names(seq![read]) == set![read.0],
{
    let reads = seq![read];
    assert(reads[0].0 == read.0);
    assert(read_names(reads) =~= set![read.0]);
}

proof fn lemma_read_names_append(a: Seq<(Seq<char>, Span)>, b: Seq<(Seq<char>, Span)>)
    ensures
        read_names(a + b) == read_names(a).union(read_names(b)),
{
    assert forall|name: Seq<char>| read_names(a + b).contains(name) implies read_names(a).union(read_names(b)).contains(name) by {
        let i = choose|i: int| 0 <= i < (a + b).len() && #[trigger] (a + b)[i].0 == name;
        if i < a.len() {
            assert(a[i].0 == name);
        } else {
            assert(b[i - a.len()].0 == name);
        }
    }
    assert forall|name: Seq<char>| read_names(a).union(read_names(b)).contains(name) implies read_names(a + b).contains(name) by {
        if read_names(a).contains(name) {
            let i = choose|i: int| 0 <= i < a.len() && #[trigger] a[i].0 == name;
            assert((a + b)[i].0 == name);
        } else {
            let i = choose|i: int| 0 <= i < b.len() && #[trigger] b[i].0 == name;
            assert((a + b)[a.len() + i].0 == name);
        }
    }
    assert(read_names(a + b) =~= read_names(a).union(read_names(b)));
}

/// Reporting reads in two runs reports what one run over both would.
pub proof fn lemma_reported_append(
    a: Seq<(Seq<char>, Span)>,
    b: Seq<(Seq<char>, Span)>,
    locals: Set<Seq<char>>,
    seen: Set<Seq<char>>,
)
    ensures
        reported(a + b, locals, seen) == reported(a, locals, seen) + reported(b, locals, seen_after(a, locals, seen)),
        seen_after(a + b, locals, seen) == seen_after(b, locals, seen_after(a, locals, seen)),
    decreases b.len(),
{
    lemma_read_names_append(a, b);
    assert(seen_after(a + b, locals, seen) =~= seen_after(b, locals, seen_after(a, locals, seen)));
    if b.len() == 0 {
        assert(a + b =~= a);
        assert(reported(a, locals, seen) + reported(b, locals, seen_after(a, locals, seen)) =~= reported(a, locals, seen));
    } else {
        let shorter = b.drop_last();
        lemma_reported_append(a, shorter, locals, seen);
        lemma_read_names_append(a, shorter);
        assert((a + b).drop_last() =~= a + shorter);
        assert((a + b).last() == b.last());
        let after = seen_after(a, locals, seen);
        let read = b.last();
        assert((locals.contains(read.0) && !seen.contains(read.0) && !read_names(a + shorter).contains(read.0))
            == (locals.contains(read.0) && !after.contains(read.0) && !read_names(shorter).contains(read.0)));
        assert(reported(a + b, locals, seen) =~= reported(a, locals, seen) + reported(b, locals, after));
    }
}

proof fn lemma_reports_append(e1: Seq<Diag>, r1: Seq<(Seq<char>, Span)>, e2: Seq<Diag>, r2: Seq<(Seq<char>, Span)>)
    requires
        reports(e1, r1),
        reports(e2, r2),
    ensures
        reports(e1 + e2, r1 + r2),
{
    assert forall|i: int| 0 <= i < (r1 + r2).len() implies {
        &&& (#[trigger] (e1 + e2)[i]).kind == crate::msg::NAME
        &&& (e1 + e2)[i].msg@ == "'"@ + (r1 + r2)[i].0 + "'에 값이 대입되지 않았을 수 있음"@
        &&& (e1 + e2)[i].hint is None
        &&& (e1 + e2)[i].span == (r1 + r2)[i].1
    } by {
        if i < r1.len() {
            assert((e1 + e2)[i] == e1[i]);
        } else {
            assert((e1 + e2)[i] == e2[i - r1.len()]);
        }
    }
}

/// What the check did between two of its states: it reported `reads` as
/// `reported` says, after the errors it had, and saw their names.
pub open spec fn noted(before: Check, after: Check, reads: Seq<(Seq<char>, Span)>) -> bool {
    &&& after.locals == before.locals
    &&& after.errors@.len() >= before.errors@.len()
    &&& after.errors@.take(before.errors@.len() as int) == before.errors@
    &&& reports(
        after.errors@.skip(before.errors@.len() as int),
        reported(reads, names_of(before.locals@), names_of(before.seen@)),
    )
    &&& names_of(after.seen@) == seen_after(reads, names_of(before.locals@), names_of(before.seen@))
}

proof fn lemma_noted_none(before: Check)
    ensures
        noted(before, before, seq![]),
{
    assert(before.errors@.take(before.errors@.len() as int) =~= before.errors@);
    assert(before.errors@.skip(before.errors@.len() as int) =~= Seq::<Diag>::empty());
    assert(read_names(seq![]) =~= Set::<Seq<char>>::empty());
    assert(names_of(before.seen@) =~= seen_after(seq![], names_of(before.locals@), names_of(before.seen@)));
}

proof fn lemma_noted_chain(
    a: Check,
    b: Check,
    c: Check,
    r1: Seq<(Seq<char>, Span)>,
    r2: Seq<(Seq<char>, Span)>,
)
    requires
        noted(a, b, r1),
        noted(b, c, r2),
    ensures
        noted(a, c, r1 + r2),
{
    let locals = names_of(a.locals@);
    lemma_reported_append(r1, r2, locals, names_of(a.seen@));
    let n = a.errors@.len() as int;
    let m = b.errors@.len() as int;
    assert(c.errors@.take(m) == b.errors@);
    assert(c.errors@.take(n) =~= b.errors@.take(n));
    assert(c.errors@.skip(n) =~= b.errors@.skip(n) + c.errors@.skip(m));
    lemma_reports_append(b.errors@.skip(n), reported(r1, locals, names_of(a.seen@)), c.errors@.skip(m), reported(r2, locals, names_of(b.seen@)));
}

} // verus!
verus! {

/// Whether std's `i64` parser accepts `text`.
pub fn is_integer_text(text: &str) -> (found: bool)
    ensures
        found == integer_text(text@),
{
    let letters = crate::chars::chars_of(text);
    let size = letters.len();
    let negative = size > 0 && letters[0] == '-';
    let start: usize = if size > 0 && (letters[0] == '-' || letters[0] == '+') {
        1
    } else {
        0
    };
    let ghost body = if start == 1 { text@.skip(1) } else { text@ };
    assert(body =~= letters@.skip(start as int));
    if start >= size {
        assert(body.len() == 0);
        return false;
    }
    let limit: u128 = if negative { 0x8000_0000_0000_0000 } else { 0x7fff_ffff_ffff_ffff };
    let mut value: u128 = 0;
    let mut big = false;
    let mut at = start;
    assert(body.take(0) =~= Seq::<char>::empty());
    while at < size
        invariant
            start <= at <= size,
            size == letters@.len(),
            start <= 1,
            letters@ == text@,
            body == letters@.skip(start as int),
            limit == if negative { 0x8000_0000_0000_0000u128 } else { 0x7fff_ffff_ffff_ffffu128 },
            start == 1 <==> (text@.len() > 0 && (text@[0] == '-' || text@[0] == '+')),
            negative == (text@.len() > 0 && text@[0] == '-'),
            forall|k: int| 0 <= k < at - start ==> crate::lex::digit(#[trigger] body[k]),
            !big ==> value == crate::lex::digits_value(body.take(at - start)) && value <= limit,
            big ==> crate::lex::digits_value(body.take(at - start)) > limit,
        decreases size - at,
    {
        let ch = letters[at];
        let ghost k = at - start;
        assert(body[k] == ch);
        assert(body.take(k + 1).drop_last() =~= body.take(k));
        let code = ch as u32;
        if !(48 <= code && code <= 57) {
            assert(!crate::lex::digit(body[k]));
            assert(start == 1 <==> (text@.len() > 0 && (text@[0] == '-' || text@[0] == '+')));
            assert(body =~= unsigned_part(text@));
            assert(!all_digits(body));
            assert(!integer_text(text@));
            return false;
        }
        if !big {
            value = value * 10 + (code - 48) as u128;
            if value > limit {
                big = true;
            }
        }
        at += 1;
    }
    assert(body.take(body.len() as int) =~= body);
    assert(body =~= unsigned_part(text@));
    !big
}

/// The name an ordinal field counts by (`자리번째` → `자리`), when its head
/// is not a numeral.
pub fn ordinal_head(field: &str) -> (found: Option<String>)
    ensures
        crate::chars::view_opt(found) == ordinal_name(field@),
{
    let letters = crate::chars::chars_of(field);
    let size = letters.len();
    if size < 2 || letters[size - 2] != '번' || letters[size - 1] != '째' {
        assert(size >= 2 ==> field@.skip(size - 2) != ordinal_mark()) by {
            if size >= 2 && field@.skip(size - 2) == ordinal_mark() {
                assert(field@.skip(size - 2)[0] == field@[size - 2]);
                assert(field@.skip(size - 2)[1] == field@[size - 1]);
            }
        }
        return None;
    }
    assert(field@.skip(size - 2) =~= ordinal_mark());
    let head = crate::chars::string_of(&letters, 0, size - 2);
    assert(head@ =~= field@.take(size - 2));
    if is_integer_text(head.as_str()) {
        None
    } else {
        Some(head)
    }
}

impl<'a> Check<'a> {
    fn expr(&mut self, expr: &Expr, live: &Vec<String>)
        ensures
            noted(*old(self), *final(self), expr_gaps(*expr, names_of(live@))),
        decreases expr,
    {
        let ghost start = *self;
        let ghost lv = names_of(live@);
        match expr {
            Expr::Literal { .. } => {
                proof {
                    lemma_noted_none(start);
                }
            },
            Expr::Name { name, span } => self.name(name.as_str(), *span, live),
            Expr::Table { items, entries, .. } => {
                self.exprs(items, live);
                let ghost mid = *self;
                self.entries(entries, live);
                proof {
                    lemma_noted_chain(start, mid, *self, exprs_gaps(items@, lv), entries_gaps(entries@, lv));
                }
            },
            Expr::Template { parts, .. } => self.parts(parts, live),
            Expr::Field { owner, name, span } => {
                self.expr(owner, live);
                let ghost mid = *self;
                match ordinal_head(name.as_str()) {
                    Some(head) => self.name(head.as_str(), *span, live),
                    None => {
                        proof {
                            lemma_noted_none(mid);
                        }
                    },
                }
                proof {
                    lemma_noted_chain(start, mid, *self, expr_gaps(**owner, lv), match ordinal_name(name@) {
                        Some(head) => gap(head, *span, lv),
                        None => seq![],
                    });
                }
            },
            Expr::Pick { owner, key, .. } => {
                self.expr(owner, live);
                let ghost mid = *self;
                self.expr(key, live);
                proof {
                    lemma_noted_chain(start, mid, *self, expr_gaps(**owner, lv), expr_gaps(**key, lv));
                }
            },
            Expr::Spot { owner, place, .. } => {
                self.expr(owner, live);
                let ghost mid = *self;
                self.expr(place, live);
                proof {
                    lemma_noted_chain(start, mid, *self, expr_gaps(**owner, lv), expr_gaps(**place, lv));
                }
            },
            Expr::Call(call) => self.call(call, live),
            Expr::Passive(passive) => {
                assert(decreases_to!(*expr => (*expr)->Passive_0));
                self.expr(&passive.head, live);
                let ghost mid = *self;
                self.slots(&passive.slots, live);
                proof {
                    lemma_noted_chain(start, mid, *self, expr_gaps(passive.head, lv), slots_gaps(passive.slots@, lv));
                }
            },
            Expr::And { left, right, .. } => {
                self.expr(left, live);
                let ghost mid = *self;
                self.expr(right, live);
                proof {
                    lemma_noted_chain(start, mid, *self, expr_gaps(**left, lv), expr_gaps(**right, lv));
                }
            },
            Expr::Or { left, right, .. } => {
                self.expr(left, live);
                let ghost mid = *self;
                self.expr(right, live);
                proof {
                    lemma_noted_chain(start, mid, *self, expr_gaps(**left, lv), expr_gaps(**right, lv));
                }
            },
        }
    }

    fn exprs(&mut self, items: &Vec<Expr>, live: &Vec<String>)
        ensures
            noted(*old(self), *final(self), exprs_gaps(items@, names_of(live@))),
        decreases items,
    {
        let ghost start = *self;
        let ghost lv = names_of(live@);
        proof {
            lemma_noted_none(start);
            assert(items@.take(0) =~= Seq::<Expr>::empty());
        }
        let mut at: usize = 0;
        while at < items.len()
            invariant
                at <= items@.len(),
                lv == names_of(live@),
                noted(start, *self, exprs_gaps(items@.take(at as int), lv)),
            decreases items@.len() - at,
        {
            let ghost mid = *self;
            assert(decreases_to!(*items => items[at as int]));
            self.expr(&items[at], live);
            proof {
                assert(items@.take(at + 1).drop_last() =~= items@.take(at as int));
                assert(items@.take(at + 1).last() == items@[at as int]);
                lemma_noted_chain(start, mid, *self, exprs_gaps(items@.take(at as int), lv), expr_gaps(items@[at as int], lv));
            }
            at += 1;
        }
        assert(items@.take(items@.len() as int) =~= items@);
    }

    fn entries(&mut self, entries: &Vec<(String, Expr)>, live: &Vec<String>)
        ensures
            noted(*old(self), *final(self), entries_gaps(entries@, names_of(live@))),
        decreases entries,
    {
        let ghost start = *self;
        let ghost lv = names_of(live@);
        proof {
            lemma_noted_none(start);
            assert(entries@.take(0) =~= Seq::<(String, Expr)>::empty());
        }
        let mut at: usize = 0;
        while at < entries.len()
            invariant
                at <= entries@.len(),
                lv == names_of(live@),
                noted(start, *self, entries_gaps(entries@.take(at as int), lv)),
            decreases entries@.len() - at,
        {
            let ghost mid = *self;
            assert(decreases_to!(*entries => entries[at as int]));
            assert(decreases_to!(entries[at as int] => entries[at as int].1));
            self.expr(&entries[at].1, live);
            proof {
                assert(entries@.take(at + 1).drop_last() =~= entries@.take(at as int));
                assert(entries@.take(at + 1).last() == entries@[at as int]);
                lemma_noted_chain(start, mid, *self, entries_gaps(entries@.take(at as int), lv), expr_gaps(entries@[at as int].1, lv));
            }
            at += 1;
        }
        assert(entries@.take(entries@.len() as int) =~= entries@);
    }

    fn parts(&mut self, parts: &Vec<TemplatePart>, live: &Vec<String>)
        ensures
            noted(*old(self), *final(self), parts_gaps(parts@, names_of(live@))),
        decreases parts,
    {
        let ghost start = *self;
        let ghost lv = names_of(live@);
        proof {
            lemma_noted_none(start);
            assert(parts@.take(0) =~= Seq::<TemplatePart>::empty());
        }
        let mut at: usize = 0;
        while at < parts.len()
            invariant
                at <= parts@.len(),
                lv == names_of(live@),
                noted(start, *self, parts_gaps(parts@.take(at as int), lv)),
            decreases parts@.len() - at,
        {
            let ghost mid = *self;
            assert(decreases_to!(*parts => parts[at as int]));
            match &parts[at] {
                TemplatePart::Text(_) => {
                    proof {
                        lemma_noted_none(mid);
                    }
                },
                TemplatePart::Expr(inner) => {
                    assert(decreases_to!(parts[at as int] => parts[at as int]->Expr_0));
                    self.expr(inner, live);
                },
            }
            proof {
                assert(parts@.take(at + 1).drop_last() =~= parts@.take(at as int));
                assert(parts@.take(at + 1).last() == parts@[at as int]);
                lemma_noted_chain(start, mid, *self, parts_gaps(parts@.take(at as int), lv), match parts@[at as int] {
                    TemplatePart::Text(_) => seq![],
                    TemplatePart::Expr(inner) => expr_gaps(inner, lv),
                });
            }
            at += 1;
        }
        assert(parts@.take(parts@.len() as int) =~= parts@);
    }

    fn slots(&mut self, slots: &Vec<Slot>, live: &Vec<String>)
        ensures
            noted(*old(self), *final(self), slots_gaps(slots@, names_of(live@))),
        decreases slots,
    {
        let ghost start = *self;
        let ghost lv = names_of(live@);
        proof {
            lemma_noted_none(start);
            assert(slots@.take(0) =~= Seq::<Slot>::empty());
        }
        let mut at: usize = 0;
        while at < slots.len()
            invariant
                at <= slots@.len(),
                lv == names_of(live@),
                noted(start, *self, slots_gaps(slots@.take(at as int), lv)),
            decreases slots@.len() - at,
        {
            let ghost mid = *self;
            assert(decreases_to!(*slots => slots[at as int]));
            assert(decreases_to!(slots[at as int] => slots[at as int].expr));
            self.expr(&slots[at].expr, live);
            proof {
                assert(slots@.take(at + 1).drop_last() =~= slots@.take(at as int));
                assert(slots@.take(at + 1).last() == slots@[at as int]);
                lemma_noted_chain(start, mid, *self, slots_gaps(slots@.take(at as int), lv), expr_gaps(slots@[at as int].expr, lv));
            }
            at += 1;
        }
        assert(slots@.take(slots@.len() as int) =~= slots@);
    }

    fn call(&mut self, call: &CallExpr, live: &Vec<String>)
        ensures
            noted(*old(self), *final(self), slots_gaps(call.slots@, names_of(live@))),
        decreases call,
    {
        assert(decreases_to!(*call => call.slots));
        self.slots(&call.slots, live);
    }
}

} // verus!
verus! {

pub open spec fn lives_sets(found: Seq<Vec<String>>) -> Seq<Set<Seq<char>>> {
    Seq::new(found.len(), |k: int| names_of(found[k]@))
}

proof fn lemma_names_push(found: Seq<String>, name: String)
    ensures
        names_of(found.push(name)) == names_of(found).insert(name@),
{
    assert(string_view(found.push(name)) =~= string_view(found).push(name@));
    assert forall|x: Seq<char>| names_of(found.push(name)).contains(x) <==> names_of(found).insert(name@).contains(x) by {
        let before = string_view(found);
        if x == name@ {
            assert(before.push(name@)[before.len() as int] == x);
        }
        if before.contains(x) {
            let k = choose|k: int| 0 <= k < before.len() && before[k] == x;
            assert(before.push(name@)[k] == x);
        }
        if before.push(name@).contains(x) {
            let k = choose|k: int| 0 <= k < before.len() + 1 && before.push(name@)[k] == x;
            if k < before.len() {
                assert(before[k] == x);
            }
        }
    }
    assert(names_of(found.push(name)) =~= names_of(found).insert(name@));
}

proof fn lemma_meet_names(branches: Seq<Vec<String>>, fallback: Seq<String>, found: Seq<String>)
    requires
        branches.len() > 0,
        string_view(found) == spec_meet(lives_view(branches), string_view(fallback)),
    ensures
        names_of(found) == meet_sets(lives_sets(branches)),
{
    let all = lives_view(branches);
    assert forall|x: Seq<char>| names_of(found).contains(x) <==> meet_sets(lives_sets(branches)).contains(x) by {
        law_meet_is_intersection(all, string_view(fallback), x);
        if names_of(found).contains(x) {
            assert forall|k: int| 0 <= k < lives_sets(branches).len() implies #[trigger] lives_sets(branches)[k].contains(x) by {
                assert(all[k].contains(x));
                assert(all[k] == string_view(branches[k]@));
            }
        }
        if meet_sets(lives_sets(branches)).contains(x) {
            assert forall|k: int| 0 <= k < all.len() implies #[trigger] all[k].contains(x) by {
                assert(lives_sets(branches)[k].contains(x));
                assert(all[k] == string_view(branches[k]@));
            }
        }
    }
    assert(names_of(found) =~= meet_sets(lives_sets(branches)));
}

proof fn lemma_block_stops(body: Seq<Stmt>, k: int, live: Set<Seq<char>>)
    requires
        0 <= k <= body.len(),
        !block_flow(body.take(k), live).2,
    ensures
        block_flow(body, live) == block_flow(body.take(k), live),
    decreases body.len() - k,
{
    if k < body.len() {
        assert(body.take(k + 1).drop_last() =~= body.take(k));
        lemma_block_stops(body, k + 1, live);
    } else {
        assert(body.take(k) =~= body);
    }
}

/// Adds `name` to the names in `live`.
fn insert_name(live: &mut Vec<String>, name: &str)
    ensures
        names_of(final(live)@) == names_of(old(live)@).insert(name@),
{
    if contains_name(live, name) {
        assert(names_of(live@).contains(name@));
        assert(names_of(live@) =~= names_of(live@).insert(name@));
    } else {
        let made = owned(name);
        proof {
            lemma_names_push(live@, made);
        }
        live.push(made);
    }
}

/// Whether one of `calls` ends the program.
fn stops(calls: &Vec<CallExpr>) -> (found: bool)
    ensures
        found == ends_program(calls@),
{
    let mut at: usize = 0;
    while at < calls.len()
        invariant
            at <= calls@.len(),
            forall|j: int| 0 <= j < at ==> (#[trigger] calls@[j]).verb@ != "종료하다"@,
        decreases calls@.len() - at,
    {
        if same_text(calls[at].verb.as_str(), "종료하다") {
            assert(calls@[at as int].verb@ == "종료하다"@);
            return true;
        }
        at += 1;
    }
    false
}

} // verus!
verus! {

impl<'a> Check<'a> {
    fn selectors(&mut self, fields: &Vec<Selector>, live: &Vec<String>)
        ensures
            noted(*old(self), *final(self), selectors_gaps(fields@, names_of(live@))),
    {
        let ghost start = *self;
        let ghost lv = names_of(live@);
        proof {
            lemma_noted_none(start);
            assert(fields@.take(0) =~= Seq::<Selector>::empty());
        }
        let mut at: usize = 0;
        while at < fields.len()
            invariant
                at <= fields@.len(),
                lv == names_of(live@),
                noted(start, *self, selectors_gaps(fields@.take(at as int), lv)),
            decreases fields@.len() - at,
        {
            let ghost mid = *self;
            match &fields[at] {
                Selector::Name(_) => {
                    proof {
                        lemma_noted_none(mid);
                    }
                },
                Selector::Pick(key) => self.expr(key, live),
                Selector::Spot(place) => self.expr(place, live),
            }
            proof {
                assert(fields@.take(at + 1).drop_last() =~= fields@.take(at as int));
                assert(fields@.take(at + 1).last() == fields@[at as int]);
                lemma_noted_chain(start, mid, *self, selectors_gaps(fields@.take(at as int), lv), match fields@[at as int] {
                    Selector::Name(_) => seq![],
                    Selector::Pick(key) => expr_gaps(key, lv),
                    Selector::Spot(place) => expr_gaps(place, lv),
                });
            }
            at += 1;
        }
        assert(fields@.take(fields@.len() as int) =~= fields@);
    }

    fn assigns(&mut self, assigns: &Vec<(Target, Expr)>, live: &mut Vec<String>)
        ensures
            noted(*old(self), *final(self), assigns_flow(assigns@, names_of(old(live)@)).0),
            names_of(final(live)@) == assigns_flow(assigns@, names_of(old(live)@)).1,
    {
        let ghost start = *self;
        let ghost l0 = names_of(live@);
        proof {
            lemma_noted_none(start);
            assert(assigns@.take(0) =~= Seq::<(Target, Expr)>::empty());
        }
        let mut at: usize = 0;
        while at < assigns.len()
            invariant
                at <= assigns@.len(),
                names_of(live@) == assigns_flow(assigns@.take(at as int), l0).1,
                noted(start, *self, assigns_flow(assigns@.take(at as int), l0).0),
            decreases assigns@.len() - at,
        {
            let ghost mid = *self;
            let ghost now = names_of(live@);
            assert(assigns@.take(at + 1).drop_last() =~= assigns@.take(at as int));
            assert(assigns@.take(at + 1).last() == assigns@[at as int]);
            let target = &assigns[at].0;
            self.expr(&assigns[at].1, live);
            let ghost after_value = *self;
            proof {
                lemma_noted_chain(start, mid, *self, assigns_flow(assigns@.take(at as int), l0).0, expr_gaps(assigns@[at as int].1, now));
            }
            if target.fields.len() == 0 {
                insert_name(live, target.root.as_str());
            } else {
                self.name(target.root.as_str(), target.span, live);
                let ghost after_root = *self;
                self.selectors(&target.fields, live);
                proof {
                    let before = assigns_flow(assigns@.take(at as int), l0).0 + expr_gaps(assigns@[at as int].1, now);
                    lemma_noted_chain(start, after_value, after_root, before, gap(target.root@, target.span, now));
                    lemma_noted_chain(start, after_root, *self, before + gap(target.root@, target.span, now), selectors_gaps(target.fields@, now));
                }
            }
            at += 1;
        }
        assert(assigns@.take(assigns@.len() as int) =~= assigns@);
    }

    fn calls(&mut self, calls: &Vec<CallExpr>, live: &Vec<String>)
        ensures
            noted(*old(self), *final(self), calls_gaps(calls@, names_of(live@))),
    {
        let ghost start = *self;
        let ghost lv = names_of(live@);
        proof {
            lemma_noted_none(start);
            assert(calls@.take(0) =~= Seq::<CallExpr>::empty());
        }
        let mut at: usize = 0;
        while at < calls.len()
            invariant
                at <= calls@.len(),
                lv == names_of(live@),
                noted(start, *self, calls_gaps(calls@.take(at as int), lv)),
            decreases calls@.len() - at,
        {
            let ghost mid = *self;
            self.call(&calls[at], live);
            proof {
                assert(calls@.take(at + 1).drop_last() =~= calls@.take(at as int));
                assert(calls@.take(at + 1).last() == calls@[at as int]);
                lemma_noted_chain(start, mid, *self, calls_gaps(calls@.take(at as int), lv), slots_gaps(calls@[at as int].slots@, lv));
            }
            at += 1;
        }
        assert(calls@.take(calls@.len() as int) =~= calls@);
    }
}

} // verus!
verus! {

impl<'a> Check<'a> {
    fn block(&mut self, body: &Vec<Stmt>, live: &mut Vec<String>) -> (on: bool)
        ensures
            on == block_flow(body@, names_of(old(live)@)).2,
            names_of(final(live)@) == block_flow(body@, names_of(old(live)@)).1,
            noted(*old(self), *final(self), block_flow(body@, names_of(old(live)@)).0),
        decreases body,
    {
        let ghost start = *self;
        let ghost l0 = names_of(live@);
        proof {
            lemma_noted_none(start);
            assert(body@.take(0) =~= Seq::<Stmt>::empty());
        }
        let mut at: usize = 0;
        while at < body.len()
            invariant
                at <= body@.len(),
                block_flow(body@.take(at as int), l0).2,
                l0 == names_of(old(live)@),
                start == *old(self),
                names_of(live@) == block_flow(body@.take(at as int), l0).1,
                noted(start, *self, block_flow(body@.take(at as int), l0).0),
            decreases body@.len() - at,
        {
            let ghost mid = *self;
            let ghost now = names_of(live@);
            assert(body@.take(at + 1).drop_last() =~= body@.take(at as int));
            assert(body@.take(at + 1).last() == body@[at as int]);
            assert(decreases_to!(*body => body[at as int]));
            let on = self.stmt(&body[at], live);
            proof {
                lemma_noted_chain(start, mid, *self, block_flow(body@.take(at as int), l0).0, stmt_flow(body@[at as int], now).0);
                let (reads, was, going) = block_flow(body@.take(at as int), l0);
                assert(going && was == now);
                assert(block_flow(body@.take(at + 1), l0) == (
                    reads + stmt_flow(body@[at as int], now).0,
                    stmt_flow(body@[at as int], now).1,
                    stmt_flow(body@[at as int], now).2,
                ));
            }
            if !on {
                proof {
                    lemma_block_stops(body@, at + 1, l0);
                }
                return false;
            }
            at += 1;
        }
        assert(body@.take(body@.len() as int) =~= body@);
        true
    }

    fn branches(&mut self, branches: &Vec<(Expr, Vec<Stmt>)>, entry: &Vec<String>, ends: &mut Vec<Vec<String>>)
        ensures
            noted(*old(self), *final(self), branches_flow(branches@, names_of(entry@)).0),
            lives_sets(final(ends)@) == lives_sets(old(ends)@) + branches_flow(branches@, names_of(entry@)).1,
        decreases branches,
    {
        let ghost start = *self;
        let ghost e0 = ends@;
        let ghost lv = names_of(entry@);
        proof {
            lemma_noted_none(start);
            assert(branches@.take(0) =~= Seq::<(Expr, Vec<Stmt>)>::empty());
            assert(lives_sets(e0) + Seq::<Set<Seq<char>>>::empty() =~= lives_sets(e0));
        }
        let mut at: usize = 0;
        while at < branches.len()
            invariant
                at <= branches@.len(),
                lv == names_of(entry@),
                noted(start, *self, branches_flow(branches@.take(at as int), lv).0),
                lives_sets(ends@) == lives_sets(e0) + branches_flow(branches@.take(at as int), lv).1,
            decreases branches@.len() - at,
        {
            let ghost mid = *self;
            assert(branches@.take(at + 1).drop_last() =~= branches@.take(at as int));
            assert(branches@.take(at + 1).last() == branches@[at as int]);
            assert(decreases_to!(*branches => branches[at as int]));
            assert(decreases_to!(branches[at as int] => branches[at as int].0));
            assert(decreases_to!(branches[at as int] => branches[at as int].1));
            let mut inner = copy_names(entry);
            self.expr(&branches[at].0, &inner);
            let ghost after_test = *self;
            let on = self.block(&branches[at].1, &mut inner);
            proof {
                let before = branches_flow(branches@.take(at as int), lv).0;
                lemma_noted_chain(start, mid, after_test, before, expr_gaps(branches@[at as int].0, lv));
                lemma_noted_chain(start, after_test, *self, before + expr_gaps(branches@[at as int].0, lv), block_flow(branches@[at as int].1@, lv).0);
            }
            if on {
                let ghost held = ends@;
                let ghost made = names_of(inner@);
                ends.push(inner);
                assert(lives_sets(ends@) =~= lives_sets(held).push(made));
            }
            assert(lives_sets(ends@) =~= lives_sets(e0) + branches_flow(branches@.take(at + 1), lv).1);
            at += 1;
        }
        assert(branches@.take(branches@.len() as int) =~= branches@);
    }

    fn stmt(&mut self, statement: &Stmt, live: &mut Vec<String>) -> (on: bool)
        ensures
            on == stmt_flow(*statement, names_of(old(live)@)).2,
            names_of(final(live)@) == stmt_flow(*statement, names_of(old(live)@)).1,
            noted(*old(self), *final(self), stmt_flow(*statement, names_of(old(live)@)).0),
        decreases statement,
    {
        let ghost start = *self;
        let ghost lv = names_of(live@);
        match statement {
            Stmt::Declare { assigns, .. } => {
                self.assigns(assigns, live);
                true
            },
            Stmt::Exec { calls, .. } => {
                self.calls(calls, live);
                !stops(calls)
            },
            Stmt::Value { expr, .. } => {
                self.expr(expr, live);
                true
            },
            Stmt::Return { value, .. } => {
                self.expr(value, live);
                false
            },
            Stmt::Break { .. } => {
                proof {
                    lemma_noted_none(start);
                }
                false
            },
            Stmt::Continue { .. } => {
                proof {
                    lemma_noted_none(start);
                }
                false
            },
            Stmt::If { branches, otherwise, .. } => {
                let entry = copy_names(live);
                let mut ends: Vec<Vec<String>> = Vec::new();
                assert(decreases_to!(*statement => (*statement)->If_branches));
                self.branches(branches, &entry, &mut ends);
                let ghost mid = *self;
                let ghost flow = branches_flow(branches@, lv);
                assert(lives_sets(ends@) =~= flow.1);
                match otherwise {
                    Some(body) => {
                        assert(decreases_to!(*statement => (*statement)->If_otherwise));
                        assert(decreases_to!((*statement)->If_otherwise => (*statement)->If_otherwise->Some_0));
                        let mut inner = copy_names(&entry);
                        let on = self.block(body, &mut inner);
                        proof {
                            lemma_noted_chain(start, mid, *self, flow.0, block_flow(body@, lv).0);
                        }
                        if on {
                            let ghost held = ends@;
                            let ghost made = names_of(inner@);
                            ends.push(inner);
                            assert(lives_sets(ends@) =~= lives_sets(held).push(made));
                        }
                        if ends.len() == 0 {
                            return false;
                        }
                        let ghost gathered = ends@;
                        let met = meet(ends, &entry);
                        proof {
                            lemma_meet_names(gathered, entry@, met@);
                        }
                        *live = met;
                    },
                    None => {
                        let ghost held = ends@;
                        let made = copy_names(&entry);
                        ends.push(made);
                        assert(lives_sets(ends@) =~= lives_sets(held).push(lv));
                        let ghost gathered = ends@;
                        let met = meet(ends, &entry);
                        proof {
                            lemma_meet_names(gathered, entry@, met@);
                        }
                        *live = met;
                    },
                }
                true
            },
            Stmt::Loop { kind, body, .. } => {
                assert(decreases_to!(*statement => (*statement)->Loop_body));
                match kind {
                    LoopKind::Range { variable, start: from, stop, step } => {
                        self.expr(from, live);
                        let ghost first = *self;
                        self.expr(stop, live);
                        let ghost second = *self;
                        match step {
                            Some(by) => self.expr(by, live),
                            None => {
                                proof {
                                    lemma_noted_none(second);
                                }
                            },
                        }
                        let ghost third = *self;
                        insert_name(live, variable.as_str());
                        let mut inner = copy_names(live);
                        self.block(body, &mut inner);
                        proof {
                            let tail = match step {
                                Some(by) => expr_gaps(*by, lv),
                                None => seq![],
                            };
                            lemma_noted_chain(start, first, second, expr_gaps(*from, lv), expr_gaps(*stop, lv));
                            lemma_noted_chain(start, second, third, expr_gaps(*from, lv) + expr_gaps(*stop, lv), tail);
                            lemma_noted_chain(start, third, *self, expr_gaps(*from, lv) + expr_gaps(*stop, lv) + tail, block_flow(body@, lv.insert(variable@)).0);
                        }
                        true
                    },
                    LoopKind::Each { variable, over } => {
                        self.expr(over, live);
                        let ghost first = *self;
                        let mut inner = copy_names(live);
                        insert_name(&mut inner, variable.as_str());
                        self.block(body, &mut inner);
                        proof {
                            lemma_noted_chain(start, first, *self, expr_gaps(*over, lv), block_flow(body@, lv.insert(variable@)).0);
                        }
                        true
                    },
                    LoopKind::While { test } => {
                        self.expr(test, live);
                        let ghost first = *self;
                        let mut inner = copy_names(live);
                        self.block(body, &mut inner);
                        proof {
                            lemma_noted_chain(start, first, *self, expr_gaps(*test, lv), block_flow(body@, lv).0);
                        }
                        true
                    },
                }
            },
            Stmt::Define { .. } => {
                proof {
                    lemma_noted_none(start);
                }
                true
            },
            Stmt::Noun { .. } => {
                proof {
                    lemma_noted_none(start);
                }
                true
            },
            Stmt::Import { .. } => {
                proof {
                    lemma_noted_none(start);
                }
                true
            },
        }
    }
}

/// The definite-assignment errors of a body whose parameters are
/// `params`: for each local of `locals`, the first read of it at a point
/// where some path may not have assigned it, in the order the reads come.
pub fn check(body: &Vec<Stmt>, locals: &Vec<String>, params: &Vec<String>) -> (errors: Vec<Diag>)
    ensures
        reports(errors@, reported(block_flow(body@, names_of(params@)).0, names_of(locals@), Set::empty())),
{
    let mut pass = Check { locals, errors: Vec::new(), seen: Vec::new() };
    let mut live = copy_names(params);
    proof {
        assert(names_of(pass.seen@) =~= Set::<Seq<char>>::empty());
    }
    let ghost start = pass;
    pass.block(body, &mut live);
    assert(pass.errors@.skip(0) =~= pass.errors@);
    pass.errors
}

} // verus!
verus! {

/// Each local is reported at most once: the reported reads name distinct
/// locals, none of them reported before.
pub proof fn law_each_local_reported_once(
    reads: Seq<(Seq<char>, Span)>,
    locals: Set<Seq<char>>,
    seen: Set<Seq<char>>,
)
    ensures
        forall|i: int| 0 <= i < reported(reads, locals, seen).len() ==> {
            &&& locals.contains(#[trigger] reported(reads, locals, seen)[i].0)
            &&& !seen.contains(reported(reads, locals, seen)[i].0)
            &&& read_names(reads).contains(reported(reads, locals, seen)[i].0)
        },
        forall|i: int, j: int| 0 <= i < j < reported(reads, locals, seen).len()
            ==> #[trigger] reported(reads, locals, seen)[i].0 != #[trigger] reported(reads, locals, seen)[j].0,
    decreases reads.len(),
{
    if reads.len() > 0 {
        let prefix = reads.drop_last();
        let read = reads.last();
        law_each_local_reported_once(prefix, locals, seen);
        let before = reported(prefix, locals, seen);
        lemma_read_names_append(prefix, seq![read]);
        assert(prefix + seq![read] =~= reads);
        lemma_read_names_single(read);
        let found = reported(reads, locals, seen);
        assert forall|i: int| 0 <= i < found.len() implies {
            &&& locals.contains(#[trigger] found[i].0)
            &&& !seen.contains(found[i].0)
            &&& read_names(reads).contains(found[i].0)
        } by {
            if i < before.len() {
                assert(found[i] == before[i]);
            } else {
                assert(found[i] == read);
            }
        }
        assert forall|i: int, j: int| 0 <= i < j < found.len() implies #[trigger] found[i].0 != #[trigger] found[j].0 by {
            assert(found[i] == before[i]);
            if j >= before.len() {
                assert(found[j] == read);
                assert(read_names(prefix).contains(before[i].0));
            } else {
                assert(found[j] == before[j]);
            }
        }
    }
}

} // verus!
verus! {

/// No read in `reads` is of a name in `live`.
pub open spec fn all_outside(reads: Seq<(Seq<char>, Span)>, live: Set<Seq<char>>) -> bool {
    forall|i: int| 0 <= i < reads.len() ==> !live.contains(#[trigger] reads[i].0)
}

proof fn lemma_outside_append(a: Seq<(Seq<char>, Span)>, b: Seq<(Seq<char>, Span)>, live: Set<Seq<char>>)
    requires
        all_outside(a, live),
        all_outside(b, live),
    ensures
        all_outside(a + b, live),
{
    assert forall|i: int| 0 <= i < (a + b).len() implies !live.contains(#[trigger] (a + b)[i].0) by {
        if i < a.len() {
            assert((a + b)[i] == a[i]);
        } else {
            assert((a + b)[i] == b[i - a.len()]);
        }
    }
}

/// A read of a name that is surely assigned is never a gap: every read
/// an expression may make of an unassigned name is of a name outside
/// `live`.
pub proof fn law_gaps_avoid_live_names(expr: Expr, live: Set<Seq<char>>)
    ensures
        all_outside(expr_gaps(expr, live), live),
    decreases expr,
{
    match expr {
        Expr::Literal { .. } => {},
        Expr::Name { .. } => {},
        Expr::Table { items, entries, .. } => {
            lemma_exprs_avoid(items@, live);
            lemma_entries_avoid(entries@, live);
            lemma_outside_append(exprs_gaps(items@, live), entries_gaps(entries@, live), live);
        },
        Expr::Template { parts, .. } => lemma_parts_avoid(parts@, live),
        Expr::Field { owner, name, span } => {
            law_gaps_avoid_live_names(*owner, live);
            let tail = match ordinal_name(name@) {
                Some(head) => gap(head, span, live),
                None => seq![],
            };
            lemma_outside_append(expr_gaps(*owner, live), tail, live);
        },
        Expr::Pick { owner, key, .. } => {
            law_gaps_avoid_live_names(*owner, live);
            law_gaps_avoid_live_names(*key, live);
            lemma_outside_append(expr_gaps(*owner, live), expr_gaps(*key, live), live);
        },
        Expr::Spot { owner, place, .. } => {
            law_gaps_avoid_live_names(*owner, live);
            law_gaps_avoid_live_names(*place, live);
            lemma_outside_append(expr_gaps(*owner, live), expr_gaps(*place, live), live);
        },
        Expr::Call(call) => lemma_slots_avoid(call.slots@, live),
        Expr::Passive(passive) => {
            law_gaps_avoid_live_names(passive.head, live);
            lemma_slots_avoid(passive.slots@, live);
            lemma_outside_append(expr_gaps(passive.head, live), slots_gaps(passive.slots@, live), live);
        },
        Expr::And { left, right, .. } => {
            law_gaps_avoid_live_names(*left, live);
            law_gaps_avoid_live_names(*right, live);
            lemma_outside_append(expr_gaps(*left, live), expr_gaps(*right, live), live);
        },
        Expr::Or { left, right, .. } => {
            law_gaps_avoid_live_names(*left, live);
            law_gaps_avoid_live_names(*right, live);
            lemma_outside_append(expr_gaps(*left, live), expr_gaps(*right, live), live);
        },
    }
}

proof fn lemma_exprs_avoid(items: Seq<Expr>, live: Set<Seq<char>>)
    ensures
        all_outside(exprs_gaps(items, live), live),
    decreases items,
{
    if items.len() > 0 {
        lemma_exprs_avoid(items.drop_last(), live);
        law_gaps_avoid_live_names(items.last(), live);
        lemma_outside_append(exprs_gaps(items.drop_last(), live), expr_gaps(items.last(), live), live);
    }
}

proof fn lemma_entries_avoid(entries: Seq<(String, Expr)>, live: Set<Seq<char>>)
    ensures
        all_outside(entries_gaps(entries, live), live),
    decreases entries,
{
    if entries.len() > 0 {
        lemma_entries_avoid(entries.drop_last(), live);
        law_gaps_avoid_live_names(entries.last().1, live);
        lemma_outside_append(entries_gaps(entries.drop_last(), live), expr_gaps(entries.last().1, live), live);
    }
}

proof fn lemma_parts_avoid(parts: Seq<TemplatePart>, live: Set<Seq<char>>)
    ensures
        all_outside(parts_gaps(parts, live), live),
    decreases parts,
{
    if parts.len() > 0 {
        lemma_parts_avoid(parts.drop_last(), live);
        let tail = match parts.last() {
            TemplatePart::Text(_) => seq![],
            TemplatePart::Expr(inner) => expr_gaps(inner, live),
        };
        match parts.last() {
            TemplatePart::Expr(inner) => law_gaps_avoid_live_names(inner, live),
            TemplatePart::Text(_) => {},
        }
        lemma_outside_append(parts_gaps(parts.drop_last(), live), tail, live);
    }
}

proof fn lemma_slots_avoid(slots: Seq<Slot>, live: Set<Seq<char>>)
    ensures
        all_outside(slots_gaps(slots, live), live),
    decreases slots,
{
    if slots.len() > 0 {
        lemma_slots_avoid(slots.drop_last(), live);
        law_gaps_avoid_live_names(slots.last().expr, live);
        lemma_outside_append(slots_gaps(slots.drop_last(), live), expr_gaps(slots.last().expr, live), live);
    }
}

} // verus!
verus! {

/// A return statement reads its value as any statement does: it reports
/// exactly what the same value standing as a statement of its own would
/// report, leaves what is assigned as it was, and control does not go on.
pub proof fn law_return_reads_its_value(value: Expr, span: Span, live: Set<Seq<char>>)
    ensures
        stmt_flow(Stmt::Return { value, span }, live) == (
            stmt_flow(Stmt::Value { expr: value, span }, live).0,
            live,
            false,
        ),
{
}

/// A name read, whether returned or standing as a value, is reported at
/// its place exactly when it is not surely assigned there.
pub proof fn law_unassigned_read_reported(name: String, at: Span, span: Span, live: Set<Seq<char>>)
    ensures
        stmt_flow(Stmt::Return { value: Expr::Name { name, span: at }, span }, live).0 == if live.contains(name@) {
            Seq::<(Seq<char>, Span)>::empty()
        } else {
            seq![(name@, at)]
        },
        stmt_flow(Stmt::Value { expr: Expr::Name { name, span: at }, span }, live).0 == if live.contains(name@) {
            Seq::<(Seq<char>, Span)>::empty()
        } else {
            seq![(name@, at)]
        },
{
}

/// Assigning a local in only some branches of a condition without an
/// otherwise-branch does not make it surely assigned after it: a name not
/// assigned on entry stays unassigned, so a later read of it is reported.
pub proof fn law_condition_without_otherwise_keeps_gaps(
    branches: Vec<(Expr, Vec<Stmt>)>,
    span: Span,
    live: Set<Seq<char>>,
    name: Seq<char>,
)
    requires
        !live.contains(name),
    ensures
        !stmt_flow(Stmt::If { branches, otherwise: None, span }, live).1.contains(name),
{
    let ends = branches_flow(branches@, live).1;
    let all = ends.push(live);
    assert(all[all.len() - 1] == live);
    assert(!meet_sets(all).contains(name));
}

} // verus!
verus! {

/// A declaration of a bare name reads its value as a statement of its own
/// would, and makes the name surely assigned after it.
pub proof fn law_declaration_assigns(assigns: Vec<(Target, Expr)>, target: Target, value: Expr, span: Span, live: Set<Seq<char>>)
    requires
        assigns@ == seq![(target, value)],
        target.fields@.len() == 0,
    ensures
        stmt_flow(Stmt::Declare { assigns, span }, live) == (
            stmt_flow(Stmt::Value { expr: value, span }, live).0,
            live.insert(target.root@),
            true,
        ),
{
    assert(assigns@.drop_last() =~= Seq::<(Target, Expr)>::empty());
    assert(assigns@.last() == (target, value));
    assert(assigns_flow(assigns@.drop_last(), live) == (Seq::<(Seq<char>, Span)>::empty(), live));
    assert(Seq::<(Seq<char>, Span)>::empty() + expr_gaps(value, live) =~= expr_gaps(value, live));
    assert(assigns_flow(assigns@, live) == (expr_gaps(value, live), live.insert(target.root@)));
}

/// A loop reads its head as statements of their own would, then its body:
/// a `동안` loop its test with what is assigned before it, a counted loop
/// its bounds before its counter is assigned, and the body with the
/// counter assigned; after a counted loop the counter is assigned, and
/// nothing else a loop's body assigns counts after it.
pub proof fn law_loops_read_heads(kind: LoopKind, body: Vec<Stmt>, span: Span, live: Set<Seq<char>>)
    ensures
        kind matches LoopKind::While { test } ==> stmt_flow(Stmt::Loop { kind, body, span }, live) == (
            stmt_flow(Stmt::Value { expr: test, span }, live).0 + block_flow(body@, live).0,
            live,
            true,
        ),
        kind matches LoopKind::Each { variable, over } ==> stmt_flow(Stmt::Loop { kind, body, span }, live) == (
            stmt_flow(Stmt::Value { expr: over, span }, live).0 + block_flow(body@, live.insert(variable@)).0,
            live,
            true,
        ),
        kind matches LoopKind::Range { variable, start, stop, step } ==> {
            let found = stmt_flow(Stmt::Loop { kind, body, span }, live);
            &&& found.1 == live.insert(variable@)
            &&& found.2
            &&& step is None ==> found.0 == stmt_flow(Stmt::Value { expr: start, span }, live).0 + stmt_flow(
                Stmt::Value { expr: stop, span },
                live,
            ).0 + block_flow(body@, live.insert(variable@)).0
        },
{
    match kind {
        LoopKind::Range { variable, start, stop, step } => {
            if step is None {
                assert(expr_gaps(start, live) + expr_gaps(stop, live) + Seq::<(Seq<char>, Span)>::empty()
                    =~= expr_gaps(start, live) + expr_gaps(stop, live));
            }
        },
        _ => {},
    }
}

/// What is surely assigned is never lost: after any statement, and after
/// any body, every name surely assigned before is still surely assigned.
pub proof fn law_assigned_stays_assigned(statement: Stmt, live: Set<Seq<char>>)
    ensures
        live.subset_of(stmt_flow(statement, live).1),
    decreases statement,
{
    match statement {
        Stmt::Declare { assigns, .. } => lemma_assigns_keep(assigns@, live),
        Stmt::If { branches, otherwise, .. } => {
            lemma_branches_keep(branches@, live);
            let ends = branches_flow(branches@, live).1;
            match otherwise {
                Some(body) => {
                    lemma_block_keeps(body@, live);
                    let (more, after, on) = block_flow(body@, live);
                    let all = if on { ends.push(after) } else { ends };
                    assert forall|k: int| 0 <= k < all.len() implies live.subset_of(#[trigger] all[k]) by {
                        if k < ends.len() {
                            assert(all[k] == ends[k]);
                        }
                    }
                },
                None => {
                    let all = ends.push(live);
                    assert forall|k: int| 0 <= k < all.len() implies live.subset_of(#[trigger] all[k]) by {
                        if k < ends.len() {
                            assert(all[k] == ends[k]);
                        }
                    }
                },
            }
        },
        _ => {},
    }
}

/// The same for a body: a body never loses what was surely assigned.
pub proof fn lemma_block_keeps(body: Seq<Stmt>, live: Set<Seq<char>>)
    ensures
        live.subset_of(block_flow(body, live).1),
    decreases body,
{
    if body.len() > 0 {
        lemma_block_keeps(body.drop_last(), live);
        let (reads, now, on) = block_flow(body.drop_last(), live);
        if on {
            law_assigned_stays_assigned(body.last(), now);
        }
    }
}

proof fn lemma_branches_keep(branches: Seq<(Expr, Vec<Stmt>)>, live: Set<Seq<char>>)
    ensures
        forall|k: int| 0 <= k < branches_flow(branches, live).1.len() ==> live.subset_of(#[trigger] branches_flow(branches, live).1[k]),
    decreases branches,
{
    if branches.len() > 0 {
        lemma_branches_keep(branches.drop_last(), live);
        lemma_block_keeps(branches.last().1@, live);
        let ends = branches_flow(branches.drop_last(), live).1;
        let found = branches_flow(branches, live).1;
        assert forall|k: int| 0 <= k < found.len() implies live.subset_of(#[trigger] found[k]) by {
            if k < ends.len() {
                assert(found[k] == ends[k]);
            }
        }
    }
}

proof fn lemma_assigns_keep(assigns: Seq<(Target, Expr)>, live: Set<Seq<char>>)
    ensures
        live.subset_of(assigns_flow(assigns, live).1),
    decreases assigns.len(),
{
    if assigns.len() > 0 {
        lemma_assigns_keep(assigns.drop_last(), live);
    }
}

} // verus!
verus! {

/// The ends of the branches of a condition with an otherwise-branch that
/// go on: each branch's, then the otherwise-branch's.
pub open spec fn ends_with_otherwise(branches: Seq<(Expr, Vec<Stmt>)>, body: Seq<Stmt>, live: Set<Seq<char>>) -> Seq<Set<Seq<char>>> {
    let ends = branches_flow(branches, live).1;
    let last = block_flow(body, live);
    if last.2 {
        ends.push(last.1)
    } else {
        ends
    }
}

/// After a condition with an otherwise-branch, a name is surely assigned
/// exactly when every branch that goes on ends with it surely assigned;
/// when no branch goes on, control does not go on either.
pub proof fn law_condition_with_otherwise(branches: Vec<(Expr, Vec<Stmt>)>, body: Vec<Stmt>, span: Span, live: Set<Seq<char>>, name: Seq<char>)
    ensures
        ends_with_otherwise(branches@, body@, live).len() == 0 ==> !stmt_flow(Stmt::If { branches, otherwise: Some(body), span }, live).2,
        ends_with_otherwise(branches@, body@, live).len() > 0 ==> stmt_flow(Stmt::If { branches, otherwise: Some(body), span }, live).2,
        ends_with_otherwise(branches@, body@, live).len() > 0 ==> (stmt_flow(
            Stmt::If { branches, otherwise: Some(body), span },
            live,
        ).1.contains(name) <==> (forall|k: int|
            0 <= k < ends_with_otherwise(branches@, body@, live).len() ==> #[trigger] ends_with_otherwise(branches@, body@, live)[k].contains(name))),
{
    let all = ends_with_otherwise(branches@, body@, live);
    let found = stmt_flow(Stmt::If { branches, otherwise: Some(body), span }, live);
    if all.len() > 0 {
        assert(found.1 == meet_sets(all));
    }
}

/// A sentence of calls reads their arguments in order; it goes on unless
/// one of its calls is `종료하다`, and it assigns nothing.
pub proof fn law_calls_flow(calls: Vec<CallExpr>, span: Span, live: Set<Seq<char>>)
    ensures
        stmt_flow(Stmt::Exec { calls, span }, live) == (
            calls_gaps(calls@, live),
            live,
            !exists|i: int| 0 <= i < calls@.len() && (#[trigger] calls@[i]).verb@ == "종료하다"@,
        ),
{
}

} // verus!
