//! Which places may grow a text in place instead of copying it.

use vstd::prelude::*;

use crate::hir::{FuncId, GlobalId, LocalId, Place};

verus! {

/// A place of the whole program: a global, or a local of one function.
#[derive(Clone, Copy, PartialEq, Eq, Structural)]
pub enum Key {
    Global(GlobalId),
    Local(FuncId, LocalId),
}

/// The place `place` names in `function`; a local names none outside a
/// function.
pub open spec fn spec_key_of(function: Option<FuncId>, place: Place) -> Option<Key> {
    match place {
        Place::Global(slot) => Some(Key::Global(slot)),
        Place::Local(slot) => match function {
            Some(id) => Some(Key::Local(id, slot)),
            None => None,
        },
    }
}

fn key_of(function: Option<FuncId>, place: Place) -> (found: Option<Key>)
    ensures
        found == spec_key_of(function, place),
{
    match place {
        Place::Global(slot) => Some(Key::Global(slot)),
        Place::Local(slot) => match function {
            Some(id) => Some(Key::Local(id, slot)),
            None => None,
        },
    }
}

/// The places where appending to a text may reuse it.
pub struct Reuse {
    pub kept: Vec<Key>,
}

impl Reuse {
    /// Whether `place` in `function` may be appended to in place.
    pub fn allows(&self, function: Option<FuncId>, place: Place) -> (found: bool)
        ensures
            found == match spec_key_of(function, place) {
                Some(key) => self.kept@.contains(key),
                None => false,
            },
    {
        match key_of(function, place) {
            Some(key) => {
                let mut at: usize = 0;
                while at < self.kept.len()
                    invariant
                        at <= self.kept@.len(),
                        spec_key_of(function, place) == Some(key),
                        forall|j: int| 0 <= j < at ==> self.kept@[j] != key,
                    decreases self.kept@.len() - at,
                {
                    if self.kept[at] == key {
                        assert(self.kept@[at as int] == key);
                        return true;
                    }
                    at += 1;
                }
                false
            },
            None => false,
        }
    }
}

impl Default for Reuse {
    fn default() -> (made: Reuse)
        ensures
            made.kept@ == Seq::<Key>::empty(),
    {
        Reuse { kept: Vec::new() }
    }
}

} // verus!
verus! {

/// What the scan has found so far: places whose text is handed on (it may
/// be shared), places a loop sets (a counter, an item), places a loop goes
/// through, and each place set with whether every value set into it was
/// made new there.
pub struct ScanView {
    pub gone: Seq<Key>,
    pub stale: Seq<Key>,
    pub walked: Seq<Key>,
    pub seen: Seq<(Key, bool)>,
}

/// `keys` with `key` added, unless it is there.
pub open spec fn add_key(keys: Seq<Key>, key: Key) -> Seq<Key> {
    if keys.contains(key) {
        keys
    } else {
        keys.push(key)
    }
}

/// Where `key` is first listed in `seen`.
pub open spec fn key_index(seen: Seq<(Key, bool)>, key: Key) -> Option<int>
    decreases seen.len(),
{
    if seen.len() == 0 {
        None
    } else if seen[0].0 == key {
        Some(0)
    } else {
        match key_index(seen.drop_first(), key) {
            Some(i) => Some(i + 1),
            None => None,
        }
    }
}

/// `seen` once `key` is set with a value that is `fresh` or not.
pub open spec fn mark_seen(seen: Seq<(Key, bool)>, key: Key, fresh: bool) -> Seq<(Key, bool)> {
    match key_index(seen, key) {
        Some(i) => seen.update(i, (key, seen[i].1 && fresh)),
        None => seen.push((key, fresh)),
    }
}

/// Whether a value is made new where it stands: a text, a template, a
/// table, or the result of adding, converting or reading.
pub open spec fn spec_makes_fresh(expr: crate::hir::Expr) -> bool {
    match expr {
        crate::hir::Expr::Str(_) => true,
        crate::hir::Expr::Template(_) => true,
        crate::hir::Expr::Table(_, _) => true,
        crate::hir::Expr::Call { callee: crate::hir::Callee::Op(op), .. } => op == crate::builtins::Builtin::Add
            || op == crate::builtins::Builtin::Convert || op == crate::builtins::Builtin::Read,
        _ => false,
    }
}

/// The scan of an expression: a place read where its value is handed on
/// (`escapes`) is gone. Items of a table, keys picked by and arguments of
/// the program's functions are handed on.
pub open spec fn scan_expr(function: Option<FuncId>, expr: crate::hir::Expr, escapes: bool, s: ScanView) -> ScanView
    decreases expr, 0nat,
{
    match expr {
        crate::hir::Expr::Local(slot) => if escapes && spec_key_of(function, Place::Local(slot)) is Some {
            ScanView { gone: add_key(s.gone, spec_key_of(function, Place::Local(slot))->0), ..s }
        } else {
            s
        },
        crate::hir::Expr::Global(slot) => if escapes {
            ScanView { gone: add_key(s.gone, Key::Global(slot)), ..s }
        } else {
            s
        },
        crate::hir::Expr::Table(items, entries) => scan_entries(function, entries@, scan_items(function, items@, true, s)),
        crate::hir::Expr::Template(parts) => scan_items(function, parts@, false, s),
        crate::hir::Expr::Field { owner, .. } => scan_expr(function, *owner, false, s),
        crate::hir::Expr::Index { owner, place, .. } => scan_expr(function, *place, false, scan_expr(function, *owner, false, s)),
        crate::hir::Expr::Pick { owner, key, .. } => scan_expr(function, *key, true, scan_expr(function, *owner, false, s)),
        crate::hir::Expr::Call { callee, args, .. } => scan_items(function, args@, callee is User, s),
        crate::hir::Expr::Not(inner) => scan_expr(function, *inner, false, s),
        crate::hir::Expr::Ask { value, .. } => scan_expr(function, *value, false, s),
        crate::hir::Expr::And(left, right) => scan_expr(function, *right, false, scan_expr(function, *left, false, s)),
        crate::hir::Expr::Or(left, right) => scan_expr(function, *right, false, scan_expr(function, *left, false, s)),
        _ => s,
    }
}

pub open spec fn scan_items(function: Option<FuncId>, items: Seq<crate::hir::Expr>, escapes: bool, s: ScanView) -> ScanView
    decreases items, 1nat,
{
    if items.len() == 0 {
        s
    } else {
        scan_expr(function, items.last(), escapes, scan_items(function, items.drop_last(), escapes, s))
    }
}

pub open spec fn scan_entries(function: Option<FuncId>, entries: Seq<(crate::intern::Symbol, crate::hir::Expr)>, s: ScanView) -> ScanView
    decreases entries, 1nat,
{
    if entries.len() == 0 {
        s
    } else {
        scan_expr(function, entries.last().1, true, scan_entries(function, entries.drop_last(), s))
    }
}

/// `s` with the place `place` names in `function`, if any, made stale.
pub open spec fn staled(function: Option<FuncId>, place: Place, s: ScanView) -> ScanView {
    match spec_key_of(function, place) {
        Some(key) => ScanView { stale: add_key(s.stale, key), ..s },
        None => s,
    }
}

/// The scan of a statement: a place set is seen, new or not; what is
/// stored, returned or picked by is handed on; a loop's counter or item is
/// stale, and a place a loop goes through is walked.
pub open spec fn scan_stmt(function: Option<FuncId>, statement: crate::hir::Stmt, s: ScanView) -> ScanView
    decreases statement, 0nat,
{
    match statement {
        crate::hir::Stmt::Assign { place, value } => {
            let marked = match spec_key_of(function, place) {
                Some(key) => ScanView { seen: mark_seen(s.seen, key, spec_makes_fresh(value)), ..s },
                None => s,
            };
            scan_expr(function, value, true, marked)
        },
        crate::hir::Stmt::SetField { owner, value, .. } => scan_expr(function, value, true, scan_expr(function, owner, false, s)),
        crate::hir::Stmt::SetAt { owner, place, value, .. } => scan_expr(
            function,
            value,
            true,
            scan_expr(function, place, false, scan_expr(function, owner, false, s)),
        ),
        crate::hir::Stmt::Each { place, over, body, .. } => {
            let stale = staled(function, place, s);
            let walked = match crate::nothing::spec_place_of(over) {
                Some(found) => match spec_key_of(function, found) {
                    Some(key) => ScanView { walked: add_key(stale.walked, key), ..stale },
                    None => stale,
                },
                None => stale,
            };
            scan_block(function, body@, scan_expr(function, over, false, walked))
        },
        crate::hir::Stmt::SetPick { owner, key, value, .. } => scan_expr(
            function,
            value,
            true,
            scan_expr(function, key, true, scan_expr(function, owner, false, s)),
        ),
        crate::hir::Stmt::Eval(value) => scan_expr(function, value, false, s),
        crate::hir::Stmt::If { branches, otherwise } => {
            let after = scan_branches(function, branches@, s);
            match otherwise {
                Some(body) => scan_block(function, body@, after),
                None => after,
            }
        },
        crate::hir::Stmt::Range { place, start, stop, step, body, .. } => {
            let bounds = scan_expr(function, stop, false, scan_expr(function, start, false, staled(function, place, s)));
            let stepped = match step {
                Some(by) => scan_expr(function, by, false, bounds),
                None => bounds,
            };
            scan_block(function, body@, stepped)
        },
        crate::hir::Stmt::While { test, body } => scan_block(function, body@, scan_expr(function, test, false, s)),
        crate::hir::Stmt::Return { value, .. } => scan_expr(function, value, true, s),
        _ => s,
    }
}

pub open spec fn scan_block(function: Option<FuncId>, body: Seq<crate::hir::Stmt>, s: ScanView) -> ScanView
    decreases body, 1nat,
{
    if body.len() == 0 {
        s
    } else {
        scan_stmt(function, body.last(), scan_block(function, body.drop_last(), s))
    }
}

pub open spec fn scan_branches(function: Option<FuncId>, branches: Seq<(crate::hir::Expr, Vec<crate::hir::Stmt>)>, s: ScanView) -> ScanView
    decreases branches, 1nat,
{
    if branches.len() == 0 {
        s
    } else {
        let before = scan_branches(function, branches.drop_last(), s);
        scan_block(function, branches.last().1@, scan_expr(function, branches.last().0, false, before))
    }
}

} // verus!
verus! {

/// The scan at work.
pub struct Scan {
    pub gone: Vec<Key>,
    pub stale: Vec<Key>,
    pub walked: Vec<Key>,
    pub seen: Vec<(Key, bool)>,
}

proof fn lemma_key_index(seen: Seq<(Key, bool)>, key: Key)
    ensures
        key_index(seen, key) matches Some(i) ==> 0 <= i < seen.len() && seen[i].0 == key,
    decreases seen.len(),
{
    if seen.len() > 0 && seen[0].0 != key {
        lemma_key_index(seen.drop_first(), key);
    }
}

fn has_key(keys: &Vec<Key>, key: Key) -> (found: bool)
    ensures
        found == keys@.contains(key),
{
    let mut i: usize = 0;
    while i < keys.len()
        invariant
            i <= keys@.len(),
            forall|j: int| 0 <= j < i ==> keys@[j] != key,
        decreases keys@.len() - i,
    {
        if keys[i] == key {
            assert(keys@[i as int] == key);
            return true;
        }
        i += 1;
    }
    false
}

fn add_to(keys: &mut Vec<Key>, key: Key)
    ensures
        final(keys)@ == add_key(old(keys)@, key),
{
    if !has_key(keys, key) {
        keys.push(key);
    }
}

fn find_seen(seen: &Vec<(Key, bool)>, key: Key) -> (found: Option<usize>)
    ensures
        found matches Some(i) ==> key_index(seen@, key) == Some(i as int),
        found is None ==> key_index(seen@, key) is None,
{
    let mut i: usize = 0;
    assert(seen@.skip(0) =~= seen@);
    while i < seen.len()
        invariant
            i <= seen@.len(),
            key_index(seen@, key) == match key_index(seen@.skip(i as int), key) {
                Some(j) => Some(j + i),
                None => None::<int>,
            },
        decreases seen@.len() - i,
    {
        assert(seen@.skip(i as int).drop_first() =~= seen@.skip(i + 1));
        assert(seen@.skip(i as int)[0] == seen@[i as int]);
        if seen[i].0 == key {
            return Some(i);
        }
        i += 1;
    }
    None
}

impl Scan {
    pub open spec fn view_of(&self) -> ScanView {
        ScanView { gone: self.gone@, stale: self.stale@, walked: self.walked@, seen: self.seen@ }
    }

    fn mark(&mut self, key: Key, fresh: bool)
        ensures
            final(self).view_of() == (ScanView { seen: mark_seen(old(self).seen@, key, fresh), ..old(self).view_of() }),
    {
        proof {
            lemma_key_index(self.seen@, key);
        }
        match find_seen(&self.seen, key) {
            Some(i) => {
                assert(key_index(old(self).seen@, key) == Some(i as int));
                let held = self.seen[i].1;
                self.seen.set(i, (key, held && fresh));
                assert(self.seen@ =~= old(self).seen@.update(i as int, (key, old(self).seen@[i as int].1 && fresh)));
            },
            None => {
                assert(key_index(old(self).seen@, key) is None);
                self.seen.push((key, fresh));
            },
        }
    }

    pub fn expr(&mut self, function: Option<FuncId>, expr: &crate::hir::Expr, escapes: bool)
        ensures
            final(self).view_of() == scan_expr(function, *expr, escapes, old(self).view_of()),
        decreases expr, 0nat,
    {
        match expr {
            crate::hir::Expr::Local(slot) => if escapes {
                match key_of(function, Place::Local(*slot)) {
                    Some(key) => add_to(&mut self.gone, key),
                    None => {},
                }
            },
            crate::hir::Expr::Global(slot) => if escapes {
                add_to(&mut self.gone, Key::Global(*slot));
            },
            crate::hir::Expr::Table(items, entries) => {
                self.items(function, items, true);
                self.entries(function, entries);
            },
            crate::hir::Expr::Template(parts) => self.items(function, parts, false),
            crate::hir::Expr::Field { owner, .. } => self.expr(function, owner, false),
            crate::hir::Expr::Index { owner, place, .. } => {
                self.expr(function, owner, false);
                self.expr(function, place, false);
            },
            crate::hir::Expr::Pick { owner, key, .. } => {
                self.expr(function, owner, false);
                self.expr(function, key, true);
            },
            crate::hir::Expr::Call { callee, args, .. } => {
                let holds = match callee {
                    crate::hir::Callee::User(_) => true,
                    crate::hir::Callee::Op(_) => false,
                };
                self.items(function, args, holds);
            },
            crate::hir::Expr::Not(inner) => self.expr(function, inner, false),
            crate::hir::Expr::Ask { value, .. } => self.expr(function, value, false),
            crate::hir::Expr::And(left, right) => {
                self.expr(function, left, false);
                self.expr(function, right, false);
            },
            crate::hir::Expr::Or(left, right) => {
                self.expr(function, left, false);
                self.expr(function, right, false);
            },
            _ => {},
        }
    }

    pub fn items(&mut self, function: Option<FuncId>, items: &Vec<crate::hir::Expr>, escapes: bool)
        ensures
            final(self).view_of() == scan_items(function, items@, escapes, old(self).view_of()),
        decreases items, 1nat,
    {
        let mut i: usize = 0;
        assert(items@.take(0) =~= Seq::<crate::hir::Expr>::empty());
        while i < items.len()
            invariant
                i <= items@.len(),
                self.view_of() == scan_items(function, items@.take(i as int), escapes, old(self).view_of()),
            decreases items@.len() - i,
        {
            proof {
                assert(decreases_to!(items => items@[i as int]));
                assert(items@.take(i + 1).drop_last() =~= items@.take(i as int));
                assert(items@.take(i + 1).last() == items@[i as int]);
            }
            self.expr(function, &items[i], escapes);
            i += 1;
        }
        assert(items@.take(items@.len() as int) =~= items@);
    }

    pub fn entries(&mut self, function: Option<FuncId>, entries: &Vec<(crate::intern::Symbol, crate::hir::Expr)>)
        ensures
            final(self).view_of() == scan_entries(function, entries@, old(self).view_of()),
        decreases entries, 1nat,
    {
        let mut i: usize = 0;
        assert(entries@.take(0) =~= Seq::<(crate::intern::Symbol, crate::hir::Expr)>::empty());
        while i < entries.len()
            invariant
                i <= entries@.len(),
                self.view_of() == scan_entries(function, entries@.take(i as int), old(self).view_of()),
            decreases entries@.len() - i,
        {
            proof {
                assert(decreases_to!(entries => entries@[i as int]));
                assert(entries@.take(i + 1).drop_last() =~= entries@.take(i as int));
                assert(entries@.take(i + 1).last() == entries@[i as int]);
            }
            self.expr(function, &entries[i].1, true);
            i += 1;
        }
        assert(entries@.take(entries@.len() as int) =~= entries@);
    }
}

} // verus!
verus! {

fn makes_fresh(expr: &crate::hir::Expr) -> (found: bool)
    ensures
        found == spec_makes_fresh(*expr),
{
    match expr {
        crate::hir::Expr::Str(_) => true,
        crate::hir::Expr::Template(_) => true,
        crate::hir::Expr::Table(_, _) => true,
        crate::hir::Expr::Call { callee: crate::hir::Callee::Op(op), .. } => match op {
            crate::builtins::Builtin::Add => true,
            crate::builtins::Builtin::Convert => true,
            crate::builtins::Builtin::Read => true,
            _ => false,
        },
        _ => false,
    }
}

impl Scan {
    fn stale_place(&mut self, function: Option<FuncId>, place: Place)
        ensures
            final(self).view_of() == staled(function, place, old(self).view_of()),
    {
        match key_of(function, place) {
            Some(key) => add_to(&mut self.stale, key),
            None => {},
        }
    }

    pub fn stmt(&mut self, function: Option<FuncId>, statement: &crate::hir::Stmt)
        ensures
            final(self).view_of() == scan_stmt(function, *statement, old(self).view_of()),
        decreases statement, 0nat,
    {
        match statement {
            crate::hir::Stmt::Assign { place, value } => {
                match key_of(function, *place) {
                    Some(key) => {
                        let fresh = makes_fresh(value);
                        self.mark(key, fresh);
                    },
                    None => {},
                }
                self.expr(function, value, true);
            },
            crate::hir::Stmt::SetField { owner, value, .. } => {
                self.expr(function, owner, false);
                self.expr(function, value, true);
            },
            crate::hir::Stmt::SetAt { owner, place, value, .. } => {
                self.expr(function, owner, false);
                self.expr(function, place, false);
                self.expr(function, value, true);
            },
            crate::hir::Stmt::Each { place, over, body, .. } => {
                self.stale_place(function, *place);
                match crate::nothing::place_of(over) {
                    Some(found) => match key_of(function, found) {
                        Some(key) => add_to(&mut self.walked, key),
                        None => {},
                    },
                    None => {},
                }
                self.expr(function, over, false);
                self.block(function, body);
            },
            crate::hir::Stmt::SetPick { owner, key, value, .. } => {
                self.expr(function, owner, false);
                self.expr(function, key, true);
                self.expr(function, value, true);
            },
            crate::hir::Stmt::Eval(value) => self.expr(function, value, false),
            crate::hir::Stmt::If { branches, otherwise } => {
                let mut i: usize = 0;
                assert(branches@.take(0) =~= Seq::<(crate::hir::Expr, Vec<crate::hir::Stmt>)>::empty());
                while i < branches.len()
                    invariant
                        i <= branches@.len(),
                        *statement == (crate::hir::Stmt::If { branches: *branches, otherwise: *otherwise }),
                        self.view_of() == scan_branches(function, branches@.take(i as int), old(self).view_of()),
                    decreases branches@.len() - i,
                {
                    proof {
                        assert(decreases_to!(*statement => statement->branches));
                        assert(decreases_to!(branches => branches@[i as int]));
                        assert(decreases_to!(branches@[i as int] => branches@[i as int].0));
                        assert(decreases_to!(branches@[i as int] => branches@[i as int].1));
                        assert(branches@.take(i + 1).drop_last() =~= branches@.take(i as int));
                        assert(branches@.take(i + 1).last() == branches@[i as int]);
                    }
                    self.expr(function, &branches[i].0, false);
                    self.block(function, &branches[i].1);
                    i += 1;
                }
                assert(branches@.take(branches@.len() as int) =~= branches@);
                match otherwise {
                    Some(body) => self.block(function, body),
                    None => {},
                }
            },
            crate::hir::Stmt::Range { place, start, stop, step, body, .. } => {
                self.stale_place(function, *place);
                self.expr(function, start, false);
                self.expr(function, stop, false);
                match step {
                    Some(by) => self.expr(function, by, false),
                    None => {},
                }
                self.block(function, body);
            },
            crate::hir::Stmt::While { test, body } => {
                self.expr(function, test, false);
                self.block(function, body);
            },
            crate::hir::Stmt::Return { value, .. } => self.expr(function, value, true),
            crate::hir::Stmt::Break => {},
            crate::hir::Stmt::Continue => {},
        }
    }

    pub fn block(&mut self, function: Option<FuncId>, body: &Vec<crate::hir::Stmt>)
        ensures
            final(self).view_of() == scan_block(function, body@, old(self).view_of()),
        decreases body, 1nat,
    {
        let mut i: usize = 0;
        assert(body@.take(0) =~= Seq::<crate::hir::Stmt>::empty());
        while i < body.len()
            invariant
                i <= body@.len(),
                self.view_of() == scan_block(function, body@.take(i as int), old(self).view_of()),
            decreases body@.len() - i,
        {
            proof {
                assert(decreases_to!(body => body@[i as int]));
                assert(body@.take(i + 1).drop_last() =~= body@.take(i as int));
                assert(body@.take(i + 1).last() == body@[i as int]);
            }
            self.stmt(function, &body[i]);
            i += 1;
        }
        assert(body@.take(body@.len() as int) =~= body@);
    }
}

} // verus!
verus! {

/// The scan of the modules' own code, the first `count` of them.
pub open spec fn scan_modules(program: crate::hir::Program, count: int) -> ScanView
    decreases count,
{
    if count <= 0 {
        ScanView { gone: Seq::empty(), stale: Seq::empty(), walked: Seq::empty(), seen: Seq::empty() }
    } else {
        scan_block(None, program.modules@[count - 1].init@, scan_modules(program, count - 1))
    }
}

/// `s` with the parameters `params` of function `id` made stale: a text
/// handed in may be the caller's.
pub open spec fn stale_params(id: FuncId, params: Seq<LocalId>, s: ScanView) -> ScanView
    decreases params.len(),
{
    if params.len() == 0 {
        s
    } else {
        let before = stale_params(id, params.drop_last(), s);
        ScanView { stale: add_key(before.stale, Key::Local(id, params.last())), ..before }
    }
}

/// The scan of the whole program: the modules, then the first `count`
/// functions, each with its parameters stale.
pub open spec fn scan_program(program: crate::hir::Program, count: int) -> ScanView
    decreases count,
{
    if count <= 0 {
        scan_modules(program, program.modules@.len() as int)
    } else {
        let found = program.functions@[count - 1];
        scan_block(
            Some((count - 1) as FuncId),
            found.body@,
            stale_params((count - 1) as FuncId, found.params@, scan_program(program, count - 1)),
        )
    }
}

/// The type the inference found for a place of the program.
pub open spec fn key_type(types: crate::types::Types, key: Key) -> crate::types::Ty {
    match key {
        Key::Global(slot) => crate::types::place_type(types, None, Place::Global(slot)),
        Key::Local(id, slot) => crate::types::place_type(types, Some(id), Place::Local(slot)),
    }
}

/// The places, in the order they were first set, that hold text, only
/// ever get new values, are never handed on, and are no loop's counter,
/// item or subject.
pub open spec fn kept_keys(s: ScanView, types: crate::types::Types, seen: Seq<(Key, bool)>) -> Seq<Key>
    decreases seen.len(),
{
    if seen.len() == 0 {
        Seq::empty()
    } else {
        let (key, holds) = seen.last();
        kept_keys(s, types, seen.drop_last()) + if holds && !s.gone.contains(key) && !s.stale.contains(key)
            && !s.walked.contains(key) && key_type(types, key) == crate::types::Ty::Str {
            seq![key]
        } else {
            Seq::empty()
        }
    }
}

/// Finds the places where appending to a text may reuse it: places of
/// text that are only ever set to new values, whose text is never handed
/// on, and that no loop counts with, takes items into or goes through.
pub fn find(program: &crate::hir::Program, types: &crate::types::Types) -> (found: Reuse)
    requires
        program.functions@.len() <= u32::MAX,
    ensures
        ({
            let s = scan_program(*program, program.functions@.len() as int);
            found.kept@ == kept_keys(s, *types, s.seen)
        }),
{
    let mut scan = Scan { gone: Vec::new(), stale: Vec::new(), walked: Vec::new(), seen: Vec::new() };
    let mut m: usize = 0;
    while m < program.modules.len()
        invariant
            m <= program.modules@.len(),
            scan.view_of() == scan_modules(*program, m as int),
        decreases program.modules@.len() - m,
    {
        scan.block(None, &program.modules[m].init);
        m += 1;
    }
    let mut f: usize = 0;
    while f < program.functions.len()
        invariant
            f <= program.functions@.len(),
            program.functions@.len() <= u32::MAX,
            scan.view_of() == scan_program(*program, f as int),
        decreases program.functions@.len() - f,
    {
        let function = &program.functions[f];
        let id = f as FuncId;
        let ghost start = scan.view_of();
        let mut p: usize = 0;
        assert(function.params@.take(0) =~= Seq::<LocalId>::empty());
        while p < function.params.len()
            invariant
                p <= function.params@.len(),
                scan.view_of() == stale_params(id, function.params@.take(p as int), start),
            decreases function.params@.len() - p,
        {
            assert(function.params@.take(p + 1).drop_last() =~= function.params@.take(p as int));
            add_to(&mut scan.stale, Key::Local(id, function.params[p]));
            p += 1;
        }
        assert(function.params@.take(function.params@.len() as int) =~= function.params@);
        scan.block(Some(id), &function.body);
        f += 1;
    }
    let ghost s = scan.view_of();
    let mut kept: Vec<Key> = Vec::new();
    let mut k: usize = 0;
    assert(scan.seen@.take(0) =~= Seq::<(Key, bool)>::empty());
    while k < scan.seen.len()
        invariant
            k <= scan.seen@.len(),
            s == scan.view_of(),
            kept@ == kept_keys(s, *types, scan.seen@.take(k as int)),
        decreases scan.seen@.len() - k,
    {
        let (key, holds) = scan.seen[k];
        assert(scan.seen@.take(k + 1).drop_last() =~= scan.seen@.take(k as int));
        assert(scan.seen@.take(k + 1).last() == scan.seen@[k as int]);
        let ty = match key {
            Key::Global(slot) => types.place_or_any(None, Place::Global(slot)),
            Key::Local(id, slot) => types.place_or_any(Some(id), Place::Local(slot)),
        };
        let alone = holds && !has_key(&scan.gone, key) && !has_key(&scan.stale, key) && !has_key(&scan.walked, key);
        let ghost before = kept@;
        if alone && ty == crate::types::Ty::Str {
            kept.push(key);
        }
        assert(kept@ =~= kept_keys(s, *types, scan.seen@.take(k + 1)));
        k += 1;
    }
    assert(scan.seen@.take(scan.seen@.len() as int) =~= scan.seen@);
    Reuse { kept }
}

} // verus!
verus! {

/// A place is kept exactly when the scan saw it set, every value set into
/// it was new, its text was never handed on, no loop counts with it, takes
/// items into it or goes through it, and it holds text.
pub proof fn law_kept_keys(s: ScanView, types: crate::types::Types, seen: Seq<(Key, bool)>, key: Key)
    ensures
        kept_keys(s, types, seen).contains(key) <==> exists|i: int|
            0 <= i < seen.len() && #[trigger] seen[i] == (key, true) && !s.gone.contains(key) && !s.stale.contains(key)
                && !s.walked.contains(key) && key_type(types, key) == crate::types::Ty::Str,
    decreases seen.len(),
{
    if seen.len() > 0 {
        law_kept_keys(s, types, seen.drop_last(), key);
        let before = kept_keys(s, types, seen.drop_last());
        let found = kept_keys(s, types, seen);
        if found.contains(key) {
            let j = choose|j: int| 0 <= j < found.len() && found[j] == key;
            if j < before.len() {
                assert(before[j] == key);
                let i = choose|i: int| 0 <= i < seen.drop_last().len() && #[trigger] seen.drop_last()[i] == (key, true)
                    && !s.gone.contains(key) && !s.stale.contains(key) && !s.walked.contains(key)
                    && key_type(types, key) == crate::types::Ty::Str;
                assert(seen[i] == seen.drop_last()[i]);
            } else {
                assert(seen[seen.len() - 1] == (key, true));
            }
        }
        if exists|i: int|
            0 <= i < seen.len() && #[trigger] seen[i] == (key, true) && !s.gone.contains(key) && !s.stale.contains(key)
                && !s.walked.contains(key) && key_type(types, key) == crate::types::Ty::Str {
            let i = choose|i: int|
                0 <= i < seen.len() && #[trigger] seen[i] == (key, true) && !s.gone.contains(key) && !s.stale.contains(key)
                    && !s.walked.contains(key) && key_type(types, key) == crate::types::Ty::Str;
            if i < seen.len() - 1 {
                assert(seen.drop_last()[i] == seen[i]);
                let j = choose|j: int| 0 <= j < before.len() && before[j] == key;
                assert(found[j] == key);
            } else {
                assert(found[found.len() - 1] == key);
            }
        }
    }
}

/// A place handed to one of the program's functions, or stored into a
/// table, is gone: its text may be shared afterwards.
pub proof fn law_handed_on_is_gone(function: Option<FuncId>, args: Vec<crate::hir::Expr>, span: crate::diag::Span, id: FuncId, slot: GlobalId, s: ScanView)
    requires
        args@ == seq![crate::hir::Expr::Global(slot)],
    ensures
        scan_expr(function, crate::hir::Expr::Call { callee: crate::hir::Callee::User(id), args, span }, false, s).gone.contains(
            Key::Global(slot),
        ),
{
    assert(args@.drop_last() =~= Seq::<crate::hir::Expr>::empty());
    assert(args@.last() == crate::hir::Expr::Global(slot));
    assert(scan_items(function, args@.drop_last(), true, s) == s);
    let g = crate::hir::Expr::Global(slot);
    assert(scan_expr(function, g, true, s) == ScanView { gone: add_key(s.gone, Key::Global(slot)), ..s });
    assert(scan_items(function, args@, true, s) == scan_expr(function, g, true, s));
    assert(add_key(s.gone, Key::Global(slot)).contains(Key::Global(slot))) by {
        if !s.gone.contains(Key::Global(slot)) {
            assert(s.gone.push(Key::Global(slot))[s.gone.len() as int] == Key::Global(slot));
        }
    }
}

} // verus!
