//! Name resolution: which slot a name is kept in, inside a function or
//! among the globals; the order to load units in; which parameters hold
//! verbs and which names a body binds; and the order of a call's
//! arguments.

use vstd::prelude::*;

use crate::chars::{owned, same_text};
use crate::hir::{FuncId, GlobalId, LocalId, Place};
use crate::ast::{CallExpr, Expr, LoopKind, Slot, Stmt, Target, TemplatePart};
use crate::load::{unit_with_path, Loaded, Unit, UnitId};
use crate::sig::{same_marker, Marker};
use crate::hir::Expr as HExpr;

verus! {

/// A verb the program defines: its name, the markers of its parameters,
/// and the function that runs it.
pub struct Verb {
    pub name: String,
    pub params: Vec<Marker>,
    pub func: FuncId,
}

/// The names one source unit declares: its globals with their slots, its
/// verbs, its nouns and the modules it takes.
pub struct Tables {
    pub globals: Vec<(String, GlobalId)>,
    pub verbs: Vec<Verb>,
    pub nouns: Vec<(String, FuncId)>,
    pub modules: Vec<(String, usize)>,
}

pub open spec fn slots_view(found: Seq<(String, u32)>) -> Seq<(Seq<char>, u32)> {
    Seq::new(found.len(), |i: int| (found[i].0@, found[i].1))
}

/// The slot of the first entry for `name`.
pub open spec fn slot_of(entries: Seq<(Seq<char>, u32)>, name: Seq<char>) -> Option<u32>
    decreases entries.len(),
{
    if entries.len() == 0 {
        None
    } else if entries[0].0 == name {
        Some(entries[0].1)
    } else {
        slot_of(entries.drop_first(), name)
    }
}

fn find_slot(entries: &Vec<(String, u32)>, name: &str) -> (found: Option<u32>)
    ensures
        found == slot_of(slots_view(entries@), name@),
{
    let ghost all = slots_view(entries@);
    let mut at: usize = 0;
    assert(all.skip(0) =~= all);
    while at < entries.len()
        invariant
            at <= entries@.len(),
            all == slots_view(entries@),
            slot_of(all, name@) == slot_of(all.skip(at as int), name@),
        decreases entries@.len() - at,
    {
        assert(all.skip(at as int)[0] == all[at as int]);
        assert(all.skip(at as int).drop_first() =~= all.skip(at + 1));
        if same_text(entries[at].0.as_str(), name) {
            return Some(entries[at].1);
        }
        at += 1;
    }
    None
}

impl Default for Tables {
    fn default() -> (made: Tables)
        ensures
            made.globals@ == Seq::<(String, GlobalId)>::empty(),
            made.verbs@ == Seq::<Verb>::empty(),
            made.nouns@ == Seq::<(String, FuncId)>::empty(),
            made.modules@ == Seq::<(String, usize)>::empty(),
    {
        Tables { globals: Vec::new(), verbs: Vec::new(), nouns: Vec::new(), modules: Vec::new() }
    }
}

/// The global slot of `name`: the one it has, or the next free one, which
/// `globals` counts.
pub fn global_slot(name: &str, tables: &mut Tables, globals: &mut u32) -> (slot: GlobalId)
    requires
        *old(globals) < u32::MAX,
    ensures
        match slot_of(slots_view(old(tables).globals@), name@) {
            Some(found) => {
                &&& slot == found
                &&& *final(globals) == *old(globals)
                &&& final(tables).globals@ == old(tables).globals@
            },
            None => {
                &&& slot == *old(globals)
                &&& *final(globals) == *old(globals) + 1
                &&& slots_view(final(tables).globals@) == slots_view(old(tables).globals@).push((name@, slot))
            },
        },
        final(tables).verbs@ == old(tables).verbs@,
        final(tables).nouns@ == old(tables).nouns@,
        final(tables).modules@ == old(tables).modules@,
{
    match find_slot(&tables.globals, name) {
        Some(found) => found,
        None => {
            let slot = *globals;
            *globals += 1;
            let ghost before = slots_view(tables.globals@);
            tables.globals.push((owned(name), slot));
            assert(slots_view(tables.globals@) =~= before.push((name@, slot)));
            slot
        },
    }
}

/// The locals of the function being resolved: each name's slot is its
/// place in `locals`.
pub struct Frame {
    pub unit: usize,
    pub locals: Vec<(String, LocalId)>,
    pub count: u32,
    pub inside_function: bool,
    pub verbs: Vec<(String, String)>,
}

impl Frame {
    /// Slots are given in order: the local at place `i` has slot `i`, and
    /// `count` locals are given.
    pub open spec fn wf(&self) -> bool {
        &&& self.count == self.locals@.len()
        &&& forall|i: int| 0 <= i < self.locals@.len() ==> #[trigger] self.locals@[i].1 == i
    }

    pub open spec fn names(&self) -> Seq<Seq<char>> {
        Seq::new(self.locals@.len(), |i: int| self.locals@[i].0@)
    }

    /// The slot of the local `name`, given a new one if it has none.
    pub fn bind_local(&mut self, name: &str) -> (slot: LocalId)
        requires
            old(self).wf(),
            old(self).count < u32::MAX,
        ensures
            final(self).wf(),
            final(self).inside_function == old(self).inside_function,
            final(self).unit == old(self).unit,
            match slot_of(slots_view(old(self).locals@), name@) {
                Some(found) => slot == found && final(self).names() == old(self).names(),
                None => slot == old(self).count && final(self).names() == old(self).names().push(name@),
            },
            final(self).names()[slot as int] == name@,
            slot < final(self).count,
    {
        proof {
            lemma_slot_place(slots_view(self.locals@), name@);
        }
        match find_slot(&self.locals, name) {
            Some(found) => {
                proof {
                    let i = choose|i: int|
                        0 <= i < slots_view(self.locals@).len() && slots_view(self.locals@)[i] == (name@, found);
                    assert(self.locals@[i].1 == i);
                    assert(self.names()[i] == name@);
                }
                found
            },
            None => {
                let slot = self.count;
                let ghost before = self.names();
                self.count += 1;
                self.locals.push((owned(name), slot));
                assert(self.names() =~= before.push(name@));
                slot
            },
        }
    }

    /// Where `name` is kept: a local inside a function, a global outside.
    pub fn place(&mut self, name: &str, tables: &mut Tables, globals: &mut u32) -> (found: Place)
        requires
            old(self).wf(),
            old(self).count < u32::MAX,
            *old(globals) < u32::MAX,
        ensures
            final(self).wf(),
            old(self).inside_function ==> (found matches Place::Local(slot) && final(self).names()[slot as int]
                == name@ && *final(globals) == *old(globals) && final(tables).globals@ == old(tables).globals@),
            !old(self).inside_function ==> (found matches Place::Global(slot) && final(self).locals@
                == old(self).locals@ && final(self).count == old(self).count && slot_of(
                slots_view(final(tables).globals@),
                name@,
            ) == Some(slot)),
    {
        if self.inside_function {
            return Place::Local(self.bind_local(name));
        }
        let ghost before = slots_view(tables.globals@);
        let slot = global_slot(name, tables, globals);
        proof {
            if slot_of(before, name@) is None {
                lemma_slot_push(before, name@, slot);
            }
        }
        Place::Global(slot)
    }
}

proof fn lemma_slot_place(entries: Seq<(Seq<char>, u32)>, name: Seq<char>)
    ensures
        slot_of(entries, name) matches Some(found) ==> exists|i: int|
            0 <= i < entries.len() && entries[i] == (name, found),
    decreases entries.len(),
{
    if entries.len() > 0 && entries[0].0 != name {
        lemma_slot_place(entries.drop_first(), name);
        if let Some(found) = slot_of(entries.drop_first(), name) {
            let i = choose|i: int| 0 <= i < entries.drop_first().len() && entries.drop_first()[i] == (name, found);
            assert(entries[i + 1] == (name, found));
        }
    } else if entries.len() > 0 {
        assert(entries[0] == (name, entries[0].1));
    }
}

proof fn lemma_slot_push(entries: Seq<(Seq<char>, u32)>, name: Seq<char>, slot: u32)
    requires
        slot_of(entries, name) is None,
    ensures
        slot_of(entries.push((name, slot)), name) == Some(slot),
    decreases entries.len(),
{
    if entries.len() > 0 {
        assert(entries.push((name, slot)).drop_first() =~= entries.drop_first().push((name, slot)));
        lemma_slot_push(entries.drop_first(), name, slot);
    } else {
        assert(entries.push((name, slot))[0] == (name, slot));
    }
}

/// Binding a name gives it one slot for good: a second binding of the same
/// name gives the same slot, and distinct names never share one.
pub proof fn law_slots_unique(frame: Frame, i: int, j: int)
    requires
        frame.wf(),
        0 <= i < frame.locals@.len(),
        0 <= j < frame.locals@.len(),
        i != j,
    ensures
        frame.locals@[i].1 != frame.locals@[j].1,
{
    assert(frame.locals@[i].1 == i);
    assert(frame.locals@[j].1 == j);
}

/// A name of the form `<n>번째` ("the n-th"): the part before it.
pub open spec fn spot_head(name: Seq<char>) -> Option<Seq<char>> {
    let tail = "번째"@;
    if tail.len() < name.len() && name.skip(name.len() - tail.len()) == tail {
        Some(name.take(name.len() - tail.len()))
    } else {
        None
    }
}

pub fn spot_of(name: &str) -> (found: Option<String>)
    ensures
        crate::chars::view_opt(found) == spot_head(name@),
{
    let letters = crate::chars::chars_of(name);
    let tail = crate::chars::chars_of("번째");
    if crate::words::ends_with(&letters, &tail) {
        Some(crate::chars::string_of(letters.as_slice(), 0, letters.len() - tail.len()))
    } else {
        None
    }
}

/// Whether two runs of markers hold the same markers in any order.
pub fn same_slots(left: &[Marker], right: &[Marker]) -> (found: bool)
    ensures
        found == (crate::sig::markers_view(left@).to_multiset() == crate::sig::markers_view(
            right@,
        ).to_multiset()),
{
    crate::sig::same(left, right)
}

} // verus!
verus! {

/// The calls in an expression, each before the calls in its arguments, in
/// the order they are written.
pub open spec fn expr_calls(expr: Expr) -> Seq<CallExpr>
    decreases expr,
{
    match expr {
        Expr::Call(call) => seq![*call] + slots_calls(call.slots@),
        Expr::Passive(passive) => expr_calls(passive.head) + slots_calls(passive.slots@),
        Expr::Table { items, entries, .. } => exprs_calls(items@) + entries_calls(entries@),
        Expr::Template { parts, .. } => parts_calls(parts@),
        Expr::Field { owner, .. } => expr_calls(*owner),
        Expr::Pick { owner, key, .. } => expr_calls(*owner) + expr_calls(*key),
        Expr::Spot { owner, place, .. } => expr_calls(*owner) + expr_calls(*place),
        Expr::And { left, right, .. } => expr_calls(*left) + expr_calls(*right),
        Expr::Or { left, right, .. } => expr_calls(*left) + expr_calls(*right),
        _ => seq![],
    }
}

pub open spec fn exprs_calls(items: Seq<Expr>) -> Seq<CallExpr>
    decreases items,
{
    if items.len() == 0 {
        seq![]
    } else {
        exprs_calls(items.drop_last()) + expr_calls(items.last())
    }
}

pub open spec fn entries_calls(entries: Seq<(String, Expr)>) -> Seq<CallExpr>
    decreases entries,
{
    if entries.len() == 0 {
        seq![]
    } else {
        entries_calls(entries.drop_last()) + expr_calls(entries.last().1)
    }
}

pub open spec fn parts_calls(parts: Seq<TemplatePart>) -> Seq<CallExpr>
    decreases parts,
{
    if parts.len() == 0 {
        seq![]
    } else {
        parts_calls(parts.drop_last()) + match parts.last() {
            TemplatePart::Expr(inner) => expr_calls(inner),
            TemplatePart::Text(_) => seq![],
        }
    }
}

pub open spec fn slots_calls(slots: Seq<Slot>) -> Seq<CallExpr>
    decreases slots,
{
    if slots.len() == 0 {
        seq![]
    } else {
        slots_calls(slots.drop_last()) + expr_calls(slots.last().expr)
    }
}

/// The calls a statement makes itself, before those of the blocks under
/// it: those of its values, tests and bounds; a statement of calls has
/// each call before the calls in its arguments.
pub open spec fn own_calls(statement: Stmt) -> Seq<CallExpr> {
    match statement {
        Stmt::Declare { assigns, .. } => assigns_calls(assigns@),
        Stmt::Exec { calls, .. } => exec_calls(calls@),
        Stmt::Value { expr, .. } => expr_calls(expr),
        Stmt::Return { value, .. } => expr_calls(value),
        Stmt::If { branches, .. } => tests_calls(branches@),
        Stmt::Loop { kind, .. } => match kind {
            LoopKind::Range { start, stop, step, .. } => expr_calls(start) + expr_calls(stop) + match step {
                Some(by) => expr_calls(by),
                None => seq![],
            },
            LoopKind::While { test } => expr_calls(test),
            LoopKind::Each { over, .. } => expr_calls(over),
        },
        _ => seq![],
    }
}

pub open spec fn assigns_calls(assigns: Seq<(Target, Expr)>) -> Seq<CallExpr>
    decreases assigns.len(),
{
    if assigns.len() == 0 {
        seq![]
    } else {
        assigns_calls(assigns.drop_last()) + expr_calls(assigns.last().1)
    }
}

pub open spec fn exec_calls(calls: Seq<CallExpr>) -> Seq<CallExpr>
    decreases calls.len(),
{
    if calls.len() == 0 {
        seq![]
    } else {
        exec_calls(calls.drop_last()) + seq![calls.last()] + slots_calls(calls.last().slots@)
    }
}

pub open spec fn tests_calls(branches: Seq<(Expr, Vec<Stmt>)>) -> Seq<CallExpr>
    decreases branches.len(),
{
    if branches.len() == 0 {
        seq![]
    } else {
        tests_calls(branches.drop_last()) + expr_calls(branches.last().0)
    }
}

/// The calls of a body and of the conditions and loops in it; the bodies
/// of definitions are not entered.
pub open spec fn block_calls(body: Seq<Stmt>) -> Seq<CallExpr>
    decreases body,
{
    if body.len() == 0 {
        seq![]
    } else {
        block_calls(body.drop_last()) + own_calls(body.last()) + inner_calls(body.last())
    }
}

/// The calls of the blocks directly under a statement.
pub open spec fn inner_calls(statement: Stmt) -> Seq<CallExpr>
    decreases statement,
{
    match statement {
        Stmt::If { branches, otherwise, .. } => bodies_calls(branches@) + match otherwise {
            Some(body) => block_calls(body@),
            None => seq![],
        },
        Stmt::Loop { body, .. } => block_calls(body@),
        _ => seq![],
    }
}

pub open spec fn bodies_calls(branches: Seq<(Expr, Vec<Stmt>)>) -> Seq<CallExpr>
    decreases branches,
{
    if branches.len() == 0 {
        seq![]
    } else {
        bodies_calls(branches.drop_last()) + block_calls(branches.last().1@)
    }
}

} // verus!
verus! {

pub open spec fn derefs<'b>(found: Seq<&'b CallExpr>) -> Seq<CallExpr> {
    Seq::new(found.len(), |i: int| *found[i])
}

fn keep_call<'b>(into: &mut Vec<&'b CallExpr>, call: &'b CallExpr)
    ensures
        derefs(final(into)@) == derefs(old(into)@).push(*call),
{
    let ghost before = derefs(into@);
    into.push(call);
    assert(derefs(into@) =~= before.push(*call));
}

fn calls_in_expr<'b>(expr: &'b Expr, into: &mut Vec<&'b CallExpr>)
    ensures
        derefs(final(into)@) == derefs(old(into)@) + expr_calls(*expr),
    decreases expr,
{
    let ghost start = derefs(into@);
    match expr {
        Expr::Call(call) => {
            keep_call(into, call);
            assert(decreases_to!(*expr => (*expr)->Call_0));
            assert(decreases_to!((*expr)->Call_0 => call.slots));
            calls_in_slots(&call.slots, into);
            assert(derefs(into@) =~= start + expr_calls(*expr));
        },
        Expr::Passive(passive) => {
            assert(decreases_to!(*expr => (*expr)->Passive_0));
            calls_in_expr(&passive.head, into);
            calls_in_slots(&passive.slots, into);
            assert(derefs(into@) =~= start + expr_calls(*expr));
        },
        Expr::Table { items, entries, .. } => {
            calls_in_items(items, into);
            calls_in_entries(entries, into);
            assert(derefs(into@) =~= start + expr_calls(*expr));
        },
        Expr::Template { parts, .. } => calls_in_parts(parts, into),
        Expr::Field { owner, .. } => calls_in_expr(owner, into),
        Expr::Pick { owner, key, .. } => {
            calls_in_expr(owner, into);
            calls_in_expr(key, into);
            assert(derefs(into@) =~= start + expr_calls(*expr));
        },
        Expr::Spot { owner, place, .. } => {
            calls_in_expr(owner, into);
            calls_in_expr(place, into);
            assert(derefs(into@) =~= start + expr_calls(*expr));
        },
        Expr::And { left, right, .. } => {
            calls_in_expr(left, into);
            calls_in_expr(right, into);
            assert(derefs(into@) =~= start + expr_calls(*expr));
        },
        Expr::Or { left, right, .. } => {
            calls_in_expr(left, into);
            calls_in_expr(right, into);
            assert(derefs(into@) =~= start + expr_calls(*expr));
        },
        _ => {
            assert(derefs(into@) =~= start + expr_calls(*expr));
        },
    }
}

fn calls_in_items<'b>(items: &'b Vec<Expr>, into: &mut Vec<&'b CallExpr>)
    ensures
        derefs(final(into)@) == derefs(old(into)@) + exprs_calls(items@),
    decreases items,
{
    let ghost start = derefs(into@);
    let mut at: usize = 0;
    assert(start + exprs_calls(items@.take(0)) =~= start);
    while at < items.len()
        invariant
            at <= items@.len(),
            derefs(into@) == start + exprs_calls(items@.take(at as int)),
        decreases items@.len() - at,
    {
        assert(items@.take(at + 1).drop_last() =~= items@.take(at as int));
        assert(decreases_to!(*items => items[at as int]));
        calls_in_expr(&items[at], into);
        assert(derefs(into@) =~= start + exprs_calls(items@.take(at + 1)));
        at += 1;
    }
    assert(items@.take(items@.len() as int) =~= items@);
}

fn calls_in_entries<'b>(entries: &'b Vec<(String, Expr)>, into: &mut Vec<&'b CallExpr>)
    ensures
        derefs(final(into)@) == derefs(old(into)@) + entries_calls(entries@),
    decreases entries,
{
    let ghost start = derefs(into@);
    let mut at: usize = 0;
    assert(start + entries_calls(entries@.take(0)) =~= start);
    while at < entries.len()
        invariant
            at <= entries@.len(),
            derefs(into@) == start + entries_calls(entries@.take(at as int)),
        decreases entries@.len() - at,
    {
        assert(entries@.take(at + 1).drop_last() =~= entries@.take(at as int));
        assert(decreases_to!(*entries => entries[at as int]));
        assert(decreases_to!(entries[at as int] => entries[at as int].1));
        calls_in_expr(&entries[at].1, into);
        assert(derefs(into@) =~= start + entries_calls(entries@.take(at + 1)));
        at += 1;
    }
    assert(entries@.take(entries@.len() as int) =~= entries@);
}

fn calls_in_parts<'b>(parts: &'b Vec<TemplatePart>, into: &mut Vec<&'b CallExpr>)
    ensures
        derefs(final(into)@) == derefs(old(into)@) + parts_calls(parts@),
    decreases parts,
{
    let ghost start = derefs(into@);
    let mut at: usize = 0;
    assert(start + parts_calls(parts@.take(0)) =~= start);
    while at < parts.len()
        invariant
            at <= parts@.len(),
            derefs(into@) == start + parts_calls(parts@.take(at as int)),
        decreases parts@.len() - at,
    {
        assert(parts@.take(at + 1).drop_last() =~= parts@.take(at as int));
        assert(decreases_to!(*parts => parts[at as int]));
        match &parts[at] {
            TemplatePart::Expr(inner) => {
                assert(decreases_to!(parts[at as int] => parts[at as int]->Expr_0));
                calls_in_expr(inner, into);
            },
            TemplatePart::Text(_) => {},
        }
        assert(derefs(into@) =~= start + parts_calls(parts@.take(at + 1)));
        at += 1;
    }
    assert(parts@.take(parts@.len() as int) =~= parts@);
}

fn calls_in_slots<'b>(slots: &'b Vec<Slot>, into: &mut Vec<&'b CallExpr>)
    ensures
        derefs(final(into)@) == derefs(old(into)@) + slots_calls(slots@),
    decreases slots,
{
    let ghost start = derefs(into@);
    let mut at: usize = 0;
    assert(start + slots_calls(slots@.take(0)) =~= start);
    while at < slots.len()
        invariant
            at <= slots@.len(),
            derefs(into@) == start + slots_calls(slots@.take(at as int)),
        decreases slots@.len() - at,
    {
        assert(slots@.take(at + 1).drop_last() =~= slots@.take(at as int));
        assert(decreases_to!(*slots => slots[at as int]));
        assert(decreases_to!(slots[at as int] => slots[at as int].expr));
        calls_in_expr(&slots[at].expr, into);
        assert(derefs(into@) =~= start + slots_calls(slots@.take(at + 1)));
        at += 1;
    }
    assert(slots@.take(slots@.len() as int) =~= slots@);
}

} // verus!
verus! {

fn calls_in_assigns<'b>(assigns: &'b Vec<(Target, Expr)>, into: &mut Vec<&'b CallExpr>)
    ensures
        derefs(final(into)@) == derefs(old(into)@) + assigns_calls(assigns@),
{
    let ghost start = derefs(into@);
    let mut at: usize = 0;
    assert(start + assigns_calls(assigns@.take(0)) =~= start);
    while at < assigns.len()
        invariant
            at <= assigns@.len(),
            derefs(into@) == start + assigns_calls(assigns@.take(at as int)),
        decreases assigns@.len() - at,
    {
        assert(assigns@.take(at + 1).drop_last() =~= assigns@.take(at as int));
        calls_in_expr(&assigns[at].1, into);
        assert(derefs(into@) =~= start + assigns_calls(assigns@.take(at + 1)));
        at += 1;
    }
    assert(assigns@.take(assigns@.len() as int) =~= assigns@);
}

fn calls_in_exec<'b>(calls: &'b Vec<CallExpr>, into: &mut Vec<&'b CallExpr>)
    ensures
        derefs(final(into)@) == derefs(old(into)@) + exec_calls(calls@),
{
    let ghost start = derefs(into@);
    let mut at: usize = 0;
    assert(start + exec_calls(calls@.take(0)) =~= start);
    while at < calls.len()
        invariant
            at <= calls@.len(),
            derefs(into@) == start + exec_calls(calls@.take(at as int)),
        decreases calls@.len() - at,
    {
        assert(calls@.take(at + 1).drop_last() =~= calls@.take(at as int));
        keep_call(into, &calls[at]);
        calls_in_slots(&calls[at].slots, into);
        assert(derefs(into@) =~= start + exec_calls(calls@.take(at + 1)));
        at += 1;
    }
    assert(calls@.take(calls@.len() as int) =~= calls@);
}

fn calls_in_tests<'b>(branches: &'b Vec<(Expr, Vec<Stmt>)>, into: &mut Vec<&'b CallExpr>)
    ensures
        derefs(final(into)@) == derefs(old(into)@) + tests_calls(branches@),
{
    let ghost start = derefs(into@);
    let mut at: usize = 0;
    assert(start + tests_calls(branches@.take(0)) =~= start);
    while at < branches.len()
        invariant
            at <= branches@.len(),
            derefs(into@) == start + tests_calls(branches@.take(at as int)),
        decreases branches@.len() - at,
    {
        assert(branches@.take(at + 1).drop_last() =~= branches@.take(at as int));
        calls_in_expr(&branches[at].0, into);
        assert(derefs(into@) =~= start + tests_calls(branches@.take(at + 1)));
        at += 1;
    }
    assert(branches@.take(branches@.len() as int) =~= branches@);
}

fn own_calls_of<'b>(statement: &'b Stmt, into: &mut Vec<&'b CallExpr>)
    ensures
        derefs(final(into)@) == derefs(old(into)@) + own_calls(*statement),
{
    let ghost start = derefs(into@);
    match statement {
        Stmt::Declare { assigns, .. } => calls_in_assigns(assigns, into),
        Stmt::Exec { calls, .. } => calls_in_exec(calls, into),
        Stmt::Value { expr, .. } => calls_in_expr(expr, into),
        Stmt::Return { value, .. } => calls_in_expr(value, into),
        Stmt::If { branches, .. } => calls_in_tests(branches, into),
        Stmt::Loop { kind, .. } => match kind {
            LoopKind::Range { start: from, stop, step, .. } => {
                calls_in_expr(from, into);
                calls_in_expr(stop, into);
                match step {
                    Some(by) => calls_in_expr(by, into),
                    None => {},
                }
                assert(derefs(into@) =~= start + own_calls(*statement));
            },
            LoopKind::While { test } => calls_in_expr(test, into),
            LoopKind::Each { over, .. } => calls_in_expr(over, into),
        },
        _ => {
            assert(derefs(into@) =~= start + own_calls(*statement));
        },
    }
}

fn calls_in_bodies<'b>(branches: &'b Vec<(Expr, Vec<Stmt>)>, into: &mut Vec<&'b CallExpr>)
    ensures
        derefs(final(into)@) == derefs(old(into)@) + bodies_calls(branches@),
    decreases branches,
{
    let ghost start = derefs(into@);
    let mut at: usize = 0;
    assert(start + bodies_calls(branches@.take(0)) =~= start);
    while at < branches.len()
        invariant
            at <= branches@.len(),
            derefs(into@) == start + bodies_calls(branches@.take(at as int)),
        decreases branches@.len() - at,
    {
        assert(branches@.take(at + 1).drop_last() =~= branches@.take(at as int));
        assert(decreases_to!(*branches => branches[at as int]));
        assert(decreases_to!(branches[at as int] => branches[at as int].1));
        calls_in_block(&branches[at].1, into);
        assert(derefs(into@) =~= start + bodies_calls(branches@.take(at + 1)));
        at += 1;
    }
    assert(branches@.take(branches@.len() as int) =~= branches@);
}

fn inner_calls_of<'b>(statement: &'b Stmt, into: &mut Vec<&'b CallExpr>)
    ensures
        derefs(final(into)@) == derefs(old(into)@) + inner_calls(*statement),
    decreases statement,
{
    let ghost start = derefs(into@);
    match statement {
        Stmt::If { branches, otherwise, .. } => {
            assert(decreases_to!(*statement => (*statement)->If_branches));
            calls_in_bodies(branches, into);
            match otherwise {
                Some(body) => {
                    assert(decreases_to!(*statement => (*statement)->If_otherwise));
                    assert(decreases_to!((*statement)->If_otherwise => (*statement)->If_otherwise->Some_0));
                    calls_in_block(body, into);
                },
                None => {},
            }
            assert(derefs(into@) =~= start + inner_calls(*statement));
        },
        Stmt::Loop { body, .. } => {
            assert(decreases_to!(*statement => (*statement)->Loop_body));
            calls_in_block(body, into);
        },
        _ => {
            assert(derefs(into@) =~= start + inner_calls(*statement));
        },
    }
}

fn calls_in_block<'b>(body: &'b Vec<Stmt>, into: &mut Vec<&'b CallExpr>)
    ensures
        derefs(final(into)@) == derefs(old(into)@) + block_calls(body@),
    decreases body,
{
    let ghost start = derefs(into@);
    let mut at: usize = 0;
    assert(start + block_calls(body@.take(0)) =~= start);
    while at < body.len()
        invariant
            at <= body@.len(),
            derefs(into@) == start + block_calls(body@.take(at as int)),
        decreases body@.len() - at,
    {
        assert(body@.take(at + 1).drop_last() =~= body@.take(at as int));
        assert(decreases_to!(*body => body[at as int]));
        own_calls_of(&body[at], into);
        inner_calls_of(&body[at], into);
        assert(derefs(into@) =~= start + block_calls(body@.take(at + 1)));
        at += 1;
    }
    assert(body@.take(body@.len() as int) =~= body@);
}

/// The parameters that the body calls as verbs: those whose names are the
/// verb of some call in it. A parameter called so holds a verb.
pub open spec fn spec_verb_slots(params: Seq<(Marker, String)>, body: Seq<Stmt>) -> Seq<Seq<char>>
    decreases params.len(),
{
    if params.len() == 0 {
        seq![]
    } else {
        let name = params.last().1@;
        spec_verb_slots(params.drop_last(), body) + if exists|i: int| 0 <= i < block_calls(body).len() && #[trigger] block_calls(body)[i].verb@ == name {
            seq![name]
        } else {
            seq![]
        }
    }
}

pub fn verb_slots(params: &Vec<(Marker, String)>, body: &Vec<Stmt>) -> (found: Vec<String>)
    ensures
        crate::words::string_view(found@) == spec_verb_slots(params@, body@),
{
    let mut called: Vec<&CallExpr> = Vec::new();
    calls_in_block(body, &mut called);
    let ghost all = block_calls(body@);
    assert(derefs(called@) =~= all);
    let mut found: Vec<String> = Vec::new();
    let mut at: usize = 0;
    assert(spec_verb_slots(params@.take(0), body@) =~= Seq::<Seq<char>>::empty());
    while at < params.len()
        invariant
            at <= params@.len(),
            derefs(called@) == all,
            all == block_calls(body@),
            crate::words::string_view(found@) == spec_verb_slots(params@.take(at as int), body@),
        decreases params@.len() - at,
    {
        assert(params@.take(at + 1).drop_last() =~= params@.take(at as int));
        let name = params[at].1.as_str();
        let mut hit = false;
        let mut k: usize = 0;
        while k < called.len()
            invariant
                k <= called@.len(),
                derefs(called@) == all,
                hit == exists|i: int| 0 <= i < k && #[trigger] all[i].verb@ == name@,
            decreases called@.len() - k,
        {
            assert(all[k as int] == *called@[k as int]);
            if same_text(called[k].verb.as_str(), name) {
                hit = true;
            }
            k += 1;
        }
        let ghost before = crate::words::string_view(found@);
        if hit {
            found.push(owned(name));
            assert(crate::words::string_view(found@) =~= before.push(name@));
        }
        assert(crate::words::string_view(found@) =~= spec_verb_slots(params@.take(at + 1), body@));
        at += 1;
    }
    assert(params@.take(params@.len() as int) =~= params@);
    found
}

} // verus!
verus! {

/// The names a body binds as locals, in order: bare declared names and
/// loop variables, in it and in the conditions and loops under it.
pub open spec fn block_binds(body: Seq<Stmt>) -> Seq<Seq<char>>
    decreases body,
{
    if body.len() == 0 {
        seq![]
    } else {
        block_binds(body.drop_last()) + own_binds(body.last()) + inner_binds(body.last())
    }
}

pub open spec fn bare_roots(assigns: Seq<(Target, Expr)>) -> Seq<Seq<char>>
    decreases assigns.len(),
{
    if assigns.len() == 0 {
        seq![]
    } else {
        bare_roots(assigns.drop_last()) + if assigns.last().0.fields@.len() == 0 {
            seq![assigns.last().0.root@]
        } else {
            seq![]
        }
    }
}

pub open spec fn own_binds(statement: Stmt) -> Seq<Seq<char>> {
    match statement {
        Stmt::Declare { assigns, .. } => bare_roots(assigns@),
        Stmt::Loop { kind: LoopKind::Range { variable, .. }, .. } => seq![variable@],
        Stmt::Loop { kind: LoopKind::Each { variable, .. }, .. } => seq![variable@],
        _ => seq![],
    }
}

pub open spec fn inner_binds(statement: Stmt) -> Seq<Seq<char>>
    decreases statement,
{
    match statement {
        Stmt::If { branches, otherwise, .. } => bodies_binds(branches@) + match otherwise {
            Some(body) => block_binds(body@),
            None => seq![],
        },
        Stmt::Loop { body, .. } => block_binds(body@),
        _ => seq![],
    }
}

pub open spec fn bodies_binds(branches: Seq<(Expr, Vec<Stmt>)>) -> Seq<Seq<char>>
    decreases branches,
{
    if branches.len() == 0 {
        seq![]
    } else {
        bodies_binds(branches.drop_last()) + block_binds(branches.last().1@)
    }
}

fn push_name(into: &mut Vec<String>, name: &str)
    ensures
        crate::words::string_view(final(into)@) == crate::words::string_view(old(into)@).push(name@),
{
    let ghost before = crate::words::string_view(into@);
    into.push(owned(name));
    assert(crate::words::string_view(into@) =~= before.push(name@));
}

fn own_binds_of(statement: &Stmt, into: &mut Vec<String>)
    ensures
        crate::words::string_view(final(into)@) == crate::words::string_view(old(into)@) + own_binds(*statement),
{
    let ghost start = crate::words::string_view(into@);
    match statement {
        Stmt::Declare { assigns, .. } => {
            let mut at: usize = 0;
            assert(start + bare_roots(assigns@.take(0)) =~= start);
            while at < assigns.len()
                invariant
                    at <= assigns@.len(),
                    crate::words::string_view(into@) == start + bare_roots(assigns@.take(at as int)),
                decreases assigns@.len() - at,
            {
                assert(assigns@.take(at + 1).drop_last() =~= assigns@.take(at as int));
                if assigns[at].0.fields.len() == 0 {
                    push_name(into, assigns[at].0.root.as_str());
                }
                assert(crate::words::string_view(into@) =~= start + bare_roots(assigns@.take(at + 1)));
                at += 1;
            }
            assert(assigns@.take(assigns@.len() as int) =~= assigns@);
        },
        Stmt::Loop { kind: LoopKind::Range { variable, .. }, .. } => {
            push_name(into, variable.as_str());
            assert(crate::words::string_view(into@) =~= start + own_binds(*statement));
        },
        Stmt::Loop { kind: LoopKind::Each { variable, .. }, .. } => {
            push_name(into, variable.as_str());
            assert(crate::words::string_view(into@) =~= start + own_binds(*statement));
        },
        _ => {
            assert(crate::words::string_view(into@) =~= start + own_binds(*statement));
        },
    }
}

fn binds_in_bodies(branches: &Vec<(Expr, Vec<Stmt>)>, into: &mut Vec<String>)
    ensures
        crate::words::string_view(final(into)@) == crate::words::string_view(old(into)@) + bodies_binds(branches@),
    decreases branches,
{
    let ghost start = crate::words::string_view(into@);
    let mut at: usize = 0;
    assert(start + bodies_binds(branches@.take(0)) =~= start);
    while at < branches.len()
        invariant
            at <= branches@.len(),
            crate::words::string_view(into@) == start + bodies_binds(branches@.take(at as int)),
        decreases branches@.len() - at,
    {
        assert(branches@.take(at + 1).drop_last() =~= branches@.take(at as int));
        assert(decreases_to!(*branches => branches[at as int]));
        assert(decreases_to!(branches[at as int] => branches[at as int].1));
        bind_names(&branches[at].1, into);
        assert(crate::words::string_view(into@) =~= start + bodies_binds(branches@.take(at + 1)));
        at += 1;
    }
    assert(branches@.take(branches@.len() as int) =~= branches@);
}

fn inner_binds_of(statement: &Stmt, into: &mut Vec<String>)
    ensures
        crate::words::string_view(final(into)@) == crate::words::string_view(old(into)@) + inner_binds(*statement),
    decreases statement,
{
    let ghost start = crate::words::string_view(into@);
    match statement {
        Stmt::If { branches, otherwise, .. } => {
            assert(decreases_to!(*statement => (*statement)->If_branches));
            binds_in_bodies(branches, into);
            match otherwise {
                Some(body) => {
                    assert(decreases_to!(*statement => (*statement)->If_otherwise));
                    assert(decreases_to!((*statement)->If_otherwise => (*statement)->If_otherwise->Some_0));
                    bind_names(body, into);
                },
                None => {},
            }
            assert(crate::words::string_view(into@) =~= start + inner_binds(*statement));
        },
        Stmt::Loop { body, .. } => {
            assert(decreases_to!(*statement => (*statement)->Loop_body));
            bind_names(body, into);
        },
        _ => {
            assert(crate::words::string_view(into@) =~= start + inner_binds(*statement));
        },
    }
}

/// Appends the names `statements` bind as locals (see `block_binds`).
pub fn bind_names(statements: &Vec<Stmt>, into: &mut Vec<String>)
    ensures
        crate::words::string_view(final(into)@) == crate::words::string_view(old(into)@) + block_binds(statements@),
    decreases statements,
{
    let ghost start = crate::words::string_view(into@);
    let mut at: usize = 0;
    assert(start + block_binds(statements@.take(0)) =~= start);
    while at < statements.len()
        invariant
            at <= statements@.len(),
            crate::words::string_view(into@) == start + block_binds(statements@.take(at as int)),
        decreases statements@.len() - at,
    {
        assert(statements@.take(at + 1).drop_last() =~= statements@.take(at as int));
        assert(decreases_to!(*statements => statements[at as int]));
        own_binds_of(&statements[at], into);
        inner_binds_of(&statements[at], into);
        assert(crate::words::string_view(into@) =~= start + block_binds(statements@.take(at + 1)));
        at += 1;
    }
    assert(statements@.take(statements@.len() as int) =~= statements@);
}

/// Where the first argument given with `marker` stands.
pub open spec fn first_given(args: Seq<(Marker, HExpr)>, marker: Marker) -> Option<int>
    decreases args.len(),
{
    if args.len() == 0 {
        None
    } else if args[0].0@ == marker@ {
        Some(0)
    } else {
        match first_given(args.drop_first(), marker) {
            Some(i) => Some(i + 1),
            None => None,
        }
    }
}

/// The arguments in the order of `params`: for each parameter, the first
/// argument not yet taken that was given with its marker, or 없음.
pub open spec fn ordered_args(args: Seq<(Marker, HExpr)>, params: Seq<Marker>) -> Seq<HExpr>
    decreases params.len(),
{
    if params.len() == 0 {
        seq![]
    } else {
        match first_given(args, params[0]) {
            Some(i) => seq![args[i].1] + ordered_args(args.remove(i), params.drop_first()),
            None => seq![HExpr::Nothing] + ordered_args(args, params.drop_first()),
        }
    }
}

proof fn lemma_first_given(args: Seq<(Marker, HExpr)>, marker: Marker, k: int)
    requires
        0 <= k <= args.len(),
        forall|j: int| 0 <= j < k ==> args[j].0@ != marker@,
    ensures
        k < args.len() && args[k].0@ == marker@ ==> first_given(args, marker) == Some(k),
        k == args.len() ==> first_given(args, marker) is None,
    decreases k,
{
    if k > 0 {
        lemma_first_given(args.drop_first(), marker, k - 1);
    }
}

/// The arguments of a call put in the order of the parameters.
pub fn order_args(args: Vec<(Marker, HExpr)>, params: &Vec<Marker>) -> (out: Vec<HExpr>)
    ensures
        out@ == ordered_args(args@, params@),
{
    let mut args = args;
    let ghost whole = ordered_args(args@, params@);
    let mut out: Vec<HExpr> = Vec::new();
    let mut k: usize = 0;
    assert(params@.skip(0) =~= params@);
    while k < params.len()
        invariant
            k <= params@.len(),
            out@ + ordered_args(args@, params@.skip(k as int)) == whole,
        decreases params@.len() - k,
    {
        let marker = params[k];
        let ghost rest = params@.skip(k as int);
        assert(rest[0] == marker);
        assert(rest.drop_first() =~= params@.skip(k + 1));
        let mut at: usize = 0;
        let mut hit = false;
        while at < args.len() && !hit
            invariant
                at <= args@.len(),
                forall|j: int| 0 <= j < at ==> args@[j].0@ != marker@,
                hit ==> at < args@.len() && args@[at as int].0@ == marker@,
            decreases args@.len() - at + if hit { 0int } else { 1int },
        {
            if same_marker(args[at].0, marker) {
                hit = true;
            } else {
                at += 1;
            }
        }
        proof {
            lemma_first_given(args@, marker, at as int);
        }
        let ghost before = args@;
        if hit {
            let (_, value) = args.remove(at);
            assert(value == before[at as int].1);
            assert(args@ == before.remove(at as int));
            assert(rest.len() > 0);
            assert(ordered_args(before, rest) == seq![before[at as int].1] + ordered_args(before.remove(at as int), rest.drop_first()));
            assert(out@.push(value) + ordered_args(args@, params@.skip(k + 1)) =~= out@ + ordered_args(before, rest));
            out.push(value);
        } else {
            assert(rest.len() > 0);
            assert(ordered_args(before, rest) == seq![HExpr::Nothing] + ordered_args(before, rest.drop_first()));
            assert(out@.push(HExpr::Nothing) + ordered_args(args@, params@.skip(k + 1)) =~= out@ + ordered_args(before, rest));
            out.push(HExpr::Nothing);
        }
        k += 1;
    }
    assert(params@.skip(params@.len() as int) =~= Seq::<Marker>::empty());
    assert(out@ + Seq::<HExpr>::empty() =~= out@);
    out
}

} // verus!
verus! {

/// Ordering gives one argument per parameter.
pub proof fn law_one_argument_per_parameter(args: Seq<(Marker, HExpr)>, params: Seq<Marker>)
    ensures
        ordered_args(args, params).len() == params.len(),
    decreases params.len(),
{
    if params.len() > 0 {
        match first_given(args, params[0]) {
            Some(i) => law_one_argument_per_parameter(args.remove(i), params.drop_first()),
            None => law_one_argument_per_parameter(args, params.drop_first()),
        }
    }
}

} // verus!
verus! {

/// The unit an import statement brings in, when one was loaded from its
/// path.
pub open spec fn import_target(units: Seq<Unit>, statement: Stmt) -> Option<int> {
    match statement {
        Stmt::Import { path, .. } => unit_with_path(units, path@),
        _ => None,
    }
}

/// The units that unit `u`'s own import statements bring in.
pub open spec fn imports_of(units: Seq<Unit>, u: int) -> Set<int> {
    Set::new(|v: int| exists|k: int| 0 <= k < units[u].statements@.len()
        && import_target(units, #[trigger] units[u].statements@[k]) == Some(v))
}

/// How many units are not yet seen.
pub open spec fn unseen(seen: Seq<bool>) -> nat
    decreases seen.len(),
{
    if seen.len() == 0 {
        0
    } else {
        unseen(seen.drop_last()) + if seen.last() { 0nat } else { 1nat }
    }
}

proof fn lemma_unseen_mark(seen: Seq<bool>, i: int)
    requires
        0 <= i < seen.len(),
        !seen[i],
    ensures
        unseen(seen.update(i, true)) + 1 == unseen(seen),
    decreases seen.len(),
{
    if i < seen.len() - 1 {
        assert(seen.update(i, true).drop_last() =~= seen.drop_last().update(i, true));
        lemma_unseen_mark(seen.drop_last(), i);
    } else {
        assert(seen.update(i, true).drop_last() =~= seen.drop_last());
    }
}

proof fn lemma_unseen_more(before: Seq<bool>, after: Seq<bool>)
    requires
        before.len() == after.len(),
        forall|i: int| 0 <= i < before.len() && #[trigger] before[i] ==> after[i],
    ensures
        unseen(after) <= unseen(before),
    decreases before.len(),
{
    if before.len() > 0 {
        lemma_unseen_more(before.drop_last(), after.drop_last());
    }
}

/// Every unit that unit `u` imports is seen.
pub open spec fn imports_seen(units: Seq<Unit>, u: int, seen: Seq<bool>) -> bool {
    forall|v: int| #[trigger] imports_of(units, u).contains(v) ==> 0 <= v < seen.len() && seen[v]
}

proof fn lemma_imports_seen_more(units: Seq<Unit>, u: int, before: Seq<bool>, after: Seq<bool>)
    requires
        imports_seen(units, u, before),
        before.len() == after.len(),
        forall|i: int| 0 <= i < before.len() && #[trigger] before[i] ==> after[i],
    ensures
        imports_seen(units, u, after),
{
    assert forall|v: int| #[trigger] imports_of(units, u).contains(v) implies 0 <= v < after.len() && after[v] by {
        assert(before[v]);
    }
}

/// What a walk from a unit added to the load order: units not seen
/// before, each once, each seen now, with every unit newly seen among
/// them, and every unit that one of them imports seen.
pub open spec fn walked(units: Seq<Unit>, before: Seq<bool>, after: Seq<bool>, added: Seq<UnitId>) -> bool {
    &&& after.len() == before.len()
    &&& forall|i: int| 0 <= i < before.len() && #[trigger] before[i] ==> after[i]
    &&& forall|j: int| 0 <= j < added.len() ==> {
        &&& (#[trigger] added[j] as int) < before.len()
        &&& !before[added[j] as int]
        &&& after[added[j] as int]
        &&& imports_seen(units, added[j] as int, after)
    }
    &&& forall|j: int, k: int| 0 <= j < k < added.len() ==> #[trigger] added[j] != #[trigger] added[k]
    &&& forall|i: int| 0 <= i < before.len() && #[trigger] after[i] && !before[i] ==> exists|j: int| 0 <= j < added.len() && added[j] as int == i
}

proof fn lemma_walked_chain(
    units: Seq<Unit>,
    s0: Seq<bool>,
    s1: Seq<bool>,
    s2: Seq<bool>,
    a1: Seq<UnitId>,
    a2: Seq<UnitId>,
)
    requires
        walked(units, s0, s1, a1),
        walked(units, s1, s2, a2),
    ensures
        walked(units, s0, s2, a1 + a2),
{
    let added = a1 + a2;
    assert forall|j: int| 0 <= j < added.len() implies {
        &&& (#[trigger] added[j] as int) < s0.len()
        &&& !s0[added[j] as int]
        &&& s2[added[j] as int]
        &&& imports_seen(units, added[j] as int, s2)
    } by {
        if j < a1.len() {
            let u = a1[j];
            assert(added[j] == u);
            assert((u as int) < s0.len() && !s0[u as int] && s1[u as int]);
            assert(s2[u as int]);
            lemma_imports_seen_more(units, u as int, s1, s2);
        } else {
            let u = a2[j - a1.len()];
            assert(added[j] == u);
            assert((u as int) < s1.len() && !s1[u as int] && s2[u as int]);
            if s0[u as int] {
                assert(s1[u as int]);
            }
        }
    }
    assert forall|j: int, k: int| 0 <= j < k < added.len() implies #[trigger] added[j] != #[trigger] added[k] by {
        if k < a1.len() {
            assert(added[j] == a1[j] && added[k] == a1[k]);
        } else if j >= a1.len() {
            assert(added[j] == a2[j - a1.len()] && added[k] == a2[k - a1.len()]);
        } else {
            assert(added[j] == a1[j] && added[k] == a2[k - a1.len()]);
            assert(s1[a1[j] as int]);
        }
    }
    assert forall|i: int| 0 <= i < s0.len() && #[trigger] s2[i] && !s0[i] implies exists|j: int| 0 <= j < added.len() && added[j] as int == i by {
        if s1[i] {
            let j = choose|j: int| 0 <= j < a1.len() && a1[j] as int == i;
            assert(added[j] == a1[j]);
        } else {
            let j = choose|j: int| 0 <= j < a2.len() && a2[j] as int == i;
            assert(added[a1.len() + j] == a2[j]);
        }
    }
}

/// Some place of `order` holds unit `i`.
pub open spec fn order_has(order: Seq<UnitId>, i: int) -> bool {
    exists|k: int| 0 <= k < order.len() && order[k] as int == i
}

/// `rank` falls along every import: an import graph with such a ranking
/// has no cycle.
pub open spec fn ranked(units: Seq<Unit>, rank: spec_fn(int) -> nat) -> bool {
    forall|u: int, v: int| 0 <= u < units.len() && #[trigger] imports_of(units, u).contains(v) ==> rank(v) < rank(u)
}

/// Every unit seen is either done (in `order`) or still being walked
/// above `unit`, at a higher rank.
pub open spec fn stack_above(seen: Seq<bool>, order: Seq<UnitId>, rank: spec_fn(int) -> nat, unit: int) -> bool {
    forall|i: int| 0 <= i < seen.len() && #[trigger] seen[i] ==> order_has(order, i) || rank(i) > rank(unit)
}

/// From place `from` on, every unit of `order` comes after each unit it
/// imports.
pub open spec fn imports_before(units: Seq<Unit>, order: Seq<UnitId>, from: int) -> bool {
    forall|j: int, v: int| from <= j < order.len() && #[trigger] imports_of(units, order[j] as int).contains(v)
        ==> exists|k: int| 0 <= k < j && order[k] as int == v
}

proof fn lemma_order_has_extend(o1: Seq<UnitId>, o2: Seq<UnitId>, i: int)
    requires
        o2.len() >= o1.len(),
        o2.take(o1.len() as int) == o1,
        order_has(o1, i),
    ensures
        order_has(o2, i),
{
    let k = choose|k: int| 0 <= k < o1.len() && o1[k] as int == i;
    assert(o2[k] == o2.take(o1.len() as int)[k]);
}

proof fn lemma_walk_step_ranked(
    units: Seq<Unit>,
    unit: int,
    at: int,
    next: int,
    s0: Seq<bool>,
    s1: Seq<bool>,
    s2: Seq<bool>,
    o0: Seq<UnitId>,
    o1: Seq<UnitId>,
    o2: Seq<UnitId>,
)
    requires
        0 <= unit < units.len(),
        0 <= at < units[unit].statements@.len(),
        import_target(units, units[unit].statements@[at]) == Some(next),
        s0.len() == units.len(),
        !s0[unit],
        o1.len() >= o0.len(),
        o1.take(o0.len() as int) == o0,
        o2.len() >= o1.len(),
        o2.take(o1.len() as int) == o1,
        walked(units, s0.update(unit, true), s1, o1.skip(o0.len() as int)),
        0 <= next < s2.len(),
        s2.len() == s0.len(),
        s2[next],
        !s1[next] ==> o2.len() > o1.len() && o2.last() as int == next,
        forall|rank: spec_fn(int) -> nat| #[trigger] ranked(units, rank) && stack_above(s1, o1, rank, next)
            ==> imports_before(units, o2, o1.len() as int),
        forall|rank: spec_fn(int) -> nat| #[trigger] ranked(units, rank) && stack_above(s0, o0, rank, unit) ==> {
            &&& imports_before(units, o1, o0.len() as int)
            &&& forall|k: int| 0 <= k < at ==> (import_target(units, #[trigger] units[unit].statements@[k]) matches Some(v) ==> order_has(o1, v))
        },
    ensures
        forall|rank: spec_fn(int) -> nat| #[trigger] ranked(units, rank) && stack_above(s0, o0, rank, unit) ==> {
            &&& imports_before(units, o2, o0.len() as int)
            &&& forall|k: int| 0 <= k < at + 1 ==> (import_target(units, #[trigger] units[unit].statements@[k]) matches Some(v) ==> order_has(o2, v))
        },
{
    let marked = s0.update(unit, true);
    let a1 = o1.skip(o0.len() as int);
    assert forall|rank: spec_fn(int) -> nat| #[trigger] ranked(units, rank) && stack_above(s0, o0, rank, unit) implies {
        &&& imports_before(units, o2, o0.len() as int)
        &&& forall|k: int| 0 <= k < at + 1 ==> (import_target(units, #[trigger] units[unit].statements@[k]) matches Some(v) ==> order_has(o2, v))
    } by {
        assert(imports_of(units, unit).contains(next));
        assert(rank(next) < rank(unit));
        assert forall|i: int| 0 <= i < s1.len() && #[trigger] s1[i] implies order_has(o1, i) || rank(i) > rank(next) by {
            if i == unit {
            } else if s0[i] {
                if order_has(o0, i) {
                    lemma_order_has_extend(o0, o1, i);
                }
            } else {
                assert(!marked[i]);
                let j = choose|j: int| 0 <= j < a1.len() && a1[j] as int == i;
                assert(o1[o0.len() + j] == a1[j]);
            }
        }
        assert(stack_above(s1, o1, rank, next));
        assert(imports_before(units, o2, o1.len() as int));
        assert forall|j: int, v: int| o0.len() <= j < o2.len() && #[trigger] imports_of(units, o2[j] as int).contains(v)
            implies exists|k: int| 0 <= k < j && o2[k] as int == v by {
            if j < o1.len() {
                assert(o2[j] == o1[j]);
                let k = choose|k: int| 0 <= k < j && o1[k] as int == v;
                assert(o2[k] == o1[k]);
            }
        }
        assert forall|k: int| 0 <= k < at + 1 implies (import_target(units, #[trigger] units[unit].statements@[k]) matches Some(v) ==> order_has(o2, v)) by {
            if k < at {
                if let Some(v) = import_target(units, units[unit].statements@[k]) {
                    lemma_order_has_extend(o1, o2, v);
                }
            } else {
                if !s1[next] {
                    assert(o2[o2.len() - 1] as int == next);
                } else if marked[next] {
                    assert(next != unit);
                    assert(s1.len() == s0.len());
                    assert(s0[next]);
                    lemma_order_has_extend(o0, o1, next);
                    lemma_order_has_extend(o1, o2, next);
                } else {
                    let j = choose|j: int| 0 <= j < a1.len() && a1[j] as int == next;
                    assert(o1[o0.len() + j] == a1[j]);
                    lemma_order_has_extend(o1, o2, next);
                }
            }
        }
    }
}

/// A walk from `unit` over the units not yet `seen`, depth first: the unit
/// is marked, the units its import statements bring in are walked in the
/// order of the statements, and the unit comes after them. Gives what is
/// seen after it and the units it adds to the load order, in that order.
/// `fuel` bounds the depth; any count of the units not yet seen suffices.
pub open spec fn walk_order(units: Seq<Unit>, unit: int, seen: Seq<bool>, fuel: nat) -> (Seq<bool>, Seq<UnitId>)
    decreases fuel, 0nat, 0nat,
{
    if !(0 <= unit < seen.len()) || seen[unit] || fuel == 0 {
        (seen, Seq::empty())
    } else {
        let (after, added) = walk_imports(units, unit, units[unit].statements@.len(), seen.update(unit, true), (fuel - 1) as nat);
        (after, added.push(unit as UnitId))
    }
}

/// The walks from the units that the first `n` statements of `unit`
/// import, one after another.
pub open spec fn walk_imports(units: Seq<Unit>, unit: int, n: nat, seen: Seq<bool>, fuel: nat) -> (Seq<bool>, Seq<UnitId>)
    decreases fuel, 1nat, n,
{
    if n == 0 || !(0 <= unit < units.len()) || n > units[unit].statements@.len() {
        (seen, Seq::empty())
    } else {
        let (s1, a1) = walk_imports(units, unit, (n - 1) as nat, seen, fuel);
        match import_target(units, units[unit].statements@[n - 1]) {
            Some(next) => {
                let (s2, a2) = walk_order(units, next, s1, fuel);
                (s2, a1 + a2)
            },
            None => (s1, a1),
        }
    }
}

/// The load order: the walk from the root over a program where nothing
/// is seen yet.
pub open spec fn load_order(units: Seq<Unit>, root: int) -> Seq<UnitId> {
    let fresh = Seq::new(units.len(), |i: int| false);
    walk_order(units, root, fresh, unseen(fresh)).1
}

/// Visits `unit` and, first, the units it imports that were not visited
/// yet, adding each to `order` once it is done.
fn walk(loaded: &Loaded, unit: UnitId, seen: &mut Vec<bool>, order: &mut Vec<UnitId>, Ghost(budget): Ghost<nat>)
    requires
        (unit as int) < loaded.units@.len(),
        old(seen)@.len() == loaded.units@.len(),
        unseen(old(seen)@) <= budget,
    ensures
        final(seen)@[unit as int],
        final(order)@.len() >= old(order)@.len(),
        final(order)@.take(old(order)@.len() as int) == old(order)@,
        walked(loaded.units@, old(seen)@, final(seen)@, final(order)@.skip(old(order)@.len() as int)),
        !old(seen)@[unit as int] ==> final(order)@.len() > old(order)@.len() && final(order)@.last() == unit,
        forall|rank: spec_fn(int) -> nat| #[trigger] ranked(loaded.units@, rank)
            && stack_above(old(seen)@, old(order)@, rank, unit as int)
            ==> imports_before(loaded.units@, final(order)@, old(order)@.len() as int),
        (final(seen)@, final(order)@.skip(old(order)@.len() as int)) == walk_order(loaded.units@, unit as int, old(seen)@, budget),
    decreases budget,
{
    let ghost units = loaded.units@;
    let ghost s0 = seen@;
    let ghost o0 = order@;
    if seen[unit] {
        assert(order@.skip(o0.len() as int) =~= Seq::<UnitId>::empty());
        assert(order@.take(o0.len() as int) =~= o0);
        return;
    }
    assert(forall|i: int| 0 <= i < o0.len() ==> #[trigger] order@[i] == o0[i]);
    seen.set(unit, true);
    let ghost marked = seen@;
    proof {
        lemma_unseen_mark(s0, unit as int);
    }
    let statements = &loaded.units[unit].statements;
    let mut at: usize = 0;
    assert(order@.skip(o0.len() as int) =~= Seq::<UnitId>::empty());
    while at < statements.len()
        invariant
            at <= statements@.len(),
            statements == &loaded.units@[unit as int].statements,
            units == loaded.units@,
            (unit as int) < units.len(),
            marked.len() == units.len(),
            s0.len() == units.len(),
            !s0[unit as int],
            marked[unit as int],
            unseen(marked) < unseen(s0),
            unseen(s0) <= budget,
            order@.len() >= o0.len(),
            order@.take(o0.len() as int) == o0,
            walked(units, marked, seen@, order@.skip(o0.len() as int)),
            forall|k: int| 0 <= k < at ==> (import_target(units, #[trigger] statements@[k]) matches Some(v) ==> 0 <= v < seen@.len() && seen@[v]),
            marked == s0.update(unit as int, true),
            budget >= 1,
            (seen@, order@.skip(o0.len() as int)) == walk_imports(units, unit as int, at as nat, marked, (budget - 1) as nat),
            forall|rank: spec_fn(int) -> nat| #[trigger] ranked(units, rank) && stack_above(s0, o0, rank, unit as int) ==> {
                &&& imports_before(units, order@, o0.len() as int)
                &&& forall|k: int| 0 <= k < at ==> (import_target(units, #[trigger] statements@[k]) matches Some(v) ==> order_has(order@, v))
            },
        decreases statements@.len() - at,
    {
        assert(statements@[at as int] == units[unit as int].statements@[at as int]);
        match &statements[at] {
            Stmt::Import { path, .. } => {
                match loaded.unit_of(path.as_str()) {
                    Some(next) => {
                        proof {
                            lemma_unit_with_path_bound(units, path@);
                            lemma_unseen_more(marked, seen@);
                        }
                        let ghost s1 = seen@;
                        let ghost o1 = order@;
                        assert(unseen(seen@) < unseen(s0));
                        walk(loaded, next, seen, order, Ghost((budget - 1) as nat));
                        proof {
                            let a1 = o1.skip(o0.len() as int);
                            let a2 = order@.skip(o1.len() as int);
                            assert(order@.take(o1.len() as int) == o1);
                            assert(order@.skip(o0.len() as int) =~= a1 + a2);
                            assert(order@.take(o0.len() as int) =~= o0);
                            lemma_walked_chain(units, marked, s1, seen@, a1, a2);
                            lemma_walk_step_ranked(units, unit as int, at as int, next as int, s0, s1, seen@, o0, o1, order@);
                            assert(order@.skip(o0.len() as int) =~= o1.skip(o0.len() as int) + order@.skip(o1.len() as int));
                        }
                    },
                    None => {},
                }
            },
            _ => {},
        }
        at += 1;
    }
    let ghost before_push = order@;
    order.push(unit);
    proof {
        assert(statements@.len() == units[unit as int].statements@.len());
        assert(order@.skip(o0.len() as int) =~= before_push.skip(o0.len() as int).push(unit));
        let added = order@.skip(o0.len() as int);
        let inner = before_push.skip(o0.len() as int);
        assert(added =~= inner.push(unit));
        assert(order@.take(o0.len() as int) =~= o0);
        assert forall|v: int| #[trigger] imports_of(units, unit as int).contains(v) implies 0 <= v < seen@.len() && seen@[v] by {
            let k = choose|k: int| 0 <= k < units[unit as int].statements@.len()
                && import_target(units, #[trigger] units[unit as int].statements@[k]) == Some(v);
            assert(statements@[k] == units[unit as int].statements@[k]);
        }
        assert(walked(units, marked, seen@, inner));
        assert(imports_seen(units, unit as int, seen@));
        assert forall|i: int| 0 <= i < s0.len() && #[trigger] s0[i] implies seen@[i] by {
            assert(marked[i]);
        }
        assert(seen@[unit as int]);
        assert forall|j: int| 0 <= j < inner.len() implies #[trigger] inner[j] != unit by {
            assert(!marked[inner[j] as int]);
        }
        assert forall|i: int| 0 <= i < s0.len() && #[trigger] seen@[i] && !s0[i] implies exists|j: int| 0 <= j < added.len() && added[j] as int == i by {
            if i == unit as int {
                assert(added[added.len() - 1] == unit);
            } else {
                assert(!marked[i]);
                let j = choose|j: int| 0 <= j < inner.len() && inner[j] as int == i;
                assert(added[j] == inner[j]);
            }
        }
        assert forall|rank: spec_fn(int) -> nat| #[trigger] ranked(units, rank) && stack_above(s0, o0, rank, unit as int)
            implies imports_before(units, order@, o0.len() as int) by {
            assert forall|j: int, v: int| o0.len() <= j < order@.len() && #[trigger] imports_of(units, order@[j] as int).contains(v)
                implies exists|k: int| 0 <= k < j && order@[k] as int == v by {
                if j < before_push.len() {
                    assert(order@[j] == before_push[j]);
                    let k = choose|k: int| 0 <= k < j && before_push[k] as int == v;
                    assert(order@[k] == before_push[k]);
                } else {
                    assert(order@[j] == unit);
                    let k = choose|k: int| 0 <= k < units[unit as int].statements@.len()
                        && import_target(units, #[trigger] units[unit as int].statements@[k]) == Some(v);
                    assert(statements@[k] == units[unit as int].statements@[k]);
                    assert(order_has(before_push, v));
                    let m = choose|m: int| 0 <= m < before_push.len() && before_push[m] as int == v;
                    assert(order@[m] == before_push[m]);
                }
            }
        }
        assert forall|j: int| 0 <= j < added.len() implies !s0[#[trigger] added[j] as int] by {
            if j < inner.len() {
                assert(added[j] == inner[j]);
                assert(!marked[inner[j] as int]);
            }
        }
    }
}

proof fn lemma_unit_with_path_bound(units: Seq<Unit>, path: Seq<char>)
    ensures
        unit_with_path(units, path) matches Some(i) ==> 0 <= i < units.len(),
    decreases units.len(),
{
    if units.len() > 0 {
        lemma_unit_with_path_bound(units.drop_last(), path);
    }
}

/// The order to load units in: a walk from the root in which each unit
/// comes once and the root last; every unit that a listed unit imports
/// is listed too, and where the imports have no cycle, every unit comes
/// after each unit it imports.
pub fn order_of(loaded: &Loaded) -> (order: Vec<UnitId>)
    requires
        loaded.root < loaded.units@.len(),
    ensures
        order@.len() > 0,
        order@.last() == loaded.root,
        forall|j: int| 0 <= j < order@.len() ==> (#[trigger] order@[j] as int) < loaded.units@.len(),
        forall|j: int, k: int| 0 <= j < k < order@.len() ==> #[trigger] order@[j] != #[trigger] order@[k],
        forall|j: int, v: int| 0 <= j < order@.len() && #[trigger] imports_of(loaded.units@, order@[j] as int).contains(v)
            ==> exists|k: int| 0 <= k < order@.len() && order@[k] as int == v,
        forall|rank: spec_fn(int) -> nat| #[trigger] ranked(loaded.units@, rank) ==> imports_before(loaded.units@, order@, 0),
        order@ == load_order(loaded.units@, loaded.root as int),
{
    let mut order: Vec<UnitId> = Vec::new();
    let mut seen: Vec<bool> = Vec::new();
    let mut at: usize = 0;
    while at < loaded.units.len()
        invariant
            at <= loaded.units@.len(),
            seen@.len() == at,
            forall|i: int| 0 <= i < at ==> !seen@[i],
        decreases loaded.units@.len() - at,
    {
        seen.push(false);
        at += 1;
    }
    let ghost s0 = seen@;
    assert(s0 =~= Seq::new(loaded.units@.len(), |i: int| false));
    let ghost budget = unseen(seen@);
    let ghost empty = order@;
    walk(loaded, loaded.root, &mut seen, &mut order, Ghost(budget));
    assert forall|rank: spec_fn(int) -> nat| #[trigger] ranked(loaded.units@, rank) implies imports_before(loaded.units@, order@, 0) by {
        assert(stack_above(s0, empty, rank, loaded.root as int));
    }
    proof {
        assert(order@.skip(0) =~= order@);
        assert forall|j: int, v: int| 0 <= j < order@.len() && #[trigger] imports_of(loaded.units@, order@[j] as int).contains(v)
            implies exists|k: int| 0 <= k < order@.len() && order@[k] as int == v by {
            assert(seen@[v]);
            assert(!s0[v]);
        }
    }
    order
}

} // verus!
