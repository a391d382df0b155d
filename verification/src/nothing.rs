//! Pieces of the check that flags uses of a value that may be 없음:
//! which operations accept 없음, which conditions test for it, and which
//! bodies fall through.

use vstd::prelude::*;

use crate::builtins::Builtin;
use crate::diag::Span;
use crate::hir::{Callee, Expr, Place, Stmt};

verus! {

/// The built-ins that accept 없음; the others need a real value.
pub open spec fn spec_tolerates(op: Builtin) -> bool {
    op == Builtin::Print || op == Builtin::Stop || op == Builtin::Equal || op == Builtin::Truthy
}

pub fn tolerates(op: Builtin) -> (found: bool)
    ensures
        found == spec_tolerates(op),
{
    match op {
        Builtin::Print | Builtin::Stop | Builtin::Equal | Builtin::Truthy => true,
        _ => false,
    }
}

/// The place an expression reads, when it is a bare local or global.
pub open spec fn spec_place_of(expr: Expr) -> Option<Place> {
    match expr {
        Expr::Local(slot) => Some(Place::Local(slot)),
        Expr::Global(slot) => Some(Place::Global(slot)),
        _ => None,
    }
}

pub fn place_of(expr: &Expr) -> (found: Option<Place>)
    ensures
        found == spec_place_of(*expr),
{
    match expr {
        Expr::Local(slot) => Some(Place::Local(*slot)),
        Expr::Global(slot) => Some(Place::Global(*slot)),
        _ => None,
    }
}

/// What a condition says of 없음: `X가 없음이면` (or `없음이 X와 같으면`)
/// gives X's place and `true`; under each `not` the answer flips.
pub open spec fn spec_tests_nothing(test: Expr) -> Option<(Place, bool)>
    decreases test,
{
    match test {
        Expr::Not(inner) => match spec_tests_nothing(*inner) {
            Some((place, yes)) => Some((place, !yes)),
            None => None,
        },
        Expr::Call { callee: Callee::Op(Builtin::Equal), args, .. } => {
            if args@.len() != 2 {
                None
            } else if spec_place_of(args@[0]) is Some && args@[1] is Nothing {
                Some((spec_place_of(args@[0])->0, true))
            } else if args@[0] is Nothing && spec_place_of(args@[1]) is Some {
                Some((spec_place_of(args@[1])->0, true))
            } else {
                None
            }
        },
        _ => None,
    }
}

pub fn tests_nothing(test: &Expr) -> (found: Option<(Place, bool)>)
    ensures
        found == spec_tests_nothing(*test),
    decreases test,
{
    match test {
        Expr::Not(inner) => match tests_nothing(inner) {
            Some((place, yes)) => Some((place, !yes)),
            None => None,
        },
        Expr::Call { callee: Callee::Op(Builtin::Equal), args, .. } => {
            if args.len() != 2 {
                return None;
            }
            let left = &args[0];
            let right = &args[1];
            match (place_of(left), right) {
                (Some(place), Expr::Nothing) => return Some((place, true)),
                _ => {},
            }
            match (left, place_of(right)) {
                (Expr::Nothing, Some(place)) => Some((place, true)),
                _ => None,
            }
        },
        _ => None,
    }
}

/// A body that control may leave at its bottom: not one that ends by
/// returning, breaking, continuing or stopping the program, nor a
/// condition with an otherwise-branch none of whose branches may.
pub open spec fn spec_flows(body: Seq<Stmt>) -> bool
    decreases body,
{
    if body.len() == 0 {
        true
    } else {
        match body.last() {
            Stmt::Return { .. } => false,
            Stmt::Break => false,
            Stmt::Continue => false,
            Stmt::Eval(Expr::Call { callee: Callee::Op(Builtin::Stop), .. }) => false,
            Stmt::If { branches, otherwise: Some(rest) } => some_flows(branches@) || spec_flows(rest@),
            _ => true,
        }
    }
}

/// Some branch of a condition may fall through.
pub open spec fn some_flows(branches: Seq<(Expr, Vec<Stmt>)>) -> bool
    decreases branches,
{
    if branches.len() == 0 {
        false
    } else {
        some_flows(branches.drop_last()) || spec_flows(branches.last().1@)
    }
}

pub fn flows(body: &Vec<Stmt>) -> (found: bool)
    ensures
        found == spec_flows(body@),
    decreases body,
{
    if body.len() == 0 {
        return true;
    }
    let last = &body[body.len() - 1];
    assert(body@.last() == *last);
    match last {
        Stmt::Return { .. } | Stmt::Break | Stmt::Continue => false,
        Stmt::Eval(Expr::Call { callee: Callee::Op(Builtin::Stop), .. }) => false,
        Stmt::If { branches, otherwise: Some(rest) } => {
            assert(decreases_to!(*body => body[body.len() - 1]));
            assert(decreases_to!(*last => last->If_branches));
            assert(decreases_to!(*last => last->If_otherwise));
            assert(decreases_to!(last->If_otherwise => last->If_otherwise->Some_0));
            let mut any = false;
            let mut at: usize = 0;
            while at < branches.len()
                invariant
                    at <= branches@.len(),
                    any == some_flows(branches@.take(at as int)),
                    decreases_to!(*body => *branches),
                decreases branches@.len() - at,
            {
                assert(branches@.take(at + 1).drop_last() =~= branches@.take(at as int));
                assert(decreases_to!(*branches => branches[at as int]));
                assert(decreases_to!(branches[at as int] => branches[at as int].1));
                if flows(&branches[at].1) {
                    any = true;
                }
                at += 1;
            }
            assert(branches@.take(branches@.len() as int) =~= branches@);
            any || flows(rest)
        },
        _ => true,
    }
}

/// Where a use of a value stands, for expressions that carry a place in
/// the source.
pub open spec fn spec_spot(expr: Expr) -> Option<Span> {
    match expr {
        Expr::Field { span, .. } => Some(span),
        Expr::Index { span, .. } => Some(span),
        Expr::Pick { span, .. } => Some(span),
        Expr::Call { span, .. } => Some(span),
        Expr::Ask { span, .. } => Some(span),
        _ => None,
    }
}

pub fn spot(expr: &Expr) -> (found: Option<Span>)
    ensures
        found == spec_spot(*expr),
{
    match expr {
        Expr::Field { span, .. } | Expr::Index { span, .. } | Expr::Pick { span, .. } | Expr::Call { span, .. }
        | Expr::Ask { span, .. } => Some(*span),
        _ => None,
    }
}

} // verus!
verus! {

/// A body that always returns never falls through.
pub proof fn law_returning_bodies_do_not_flow(body: Seq<Stmt>)
    requires
        crate::types::returns_always(body),
    ensures
        !spec_flows(body),
    decreases body,
{
    if body.len() > 0 {
        match body.last() {
            Stmt::If { branches, otherwise: Some(rest) } => {
                lemma_returning_branches_do_not_flow(branches@);
                law_returning_bodies_do_not_flow(rest@);
            },
            _ => {},
        }
    }
}

proof fn lemma_returning_branches_do_not_flow(branches: Seq<(Expr, Vec<Stmt>)>)
    requires
        crate::types::all_return(branches),
    ensures
        !some_flows(branches),
    decreases branches,
{
    if branches.len() > 0 {
        lemma_returning_branches_do_not_flow(branches.drop_last());
        law_returning_bodies_do_not_flow(branches.last().1@);
    }
}

} // verus!
verus! {

/// What a value that may be 없음 was needed for: as the owner of a field
/// or an item, as a place or key, as a bound of a range, or as an argument
/// of a call that needs real values.
#[derive(Clone, Copy, Debug, PartialEq, Eq, Structural)]
pub enum Need {
    Owner,
    Place,
    RangeBound,
    Argument(Callee),
}

/// A use, in a module, of a value that may be 없음 where a real one is
/// needed: where it stands and what it was needed for.
#[derive(Clone, Copy, Debug, PartialEq, Eq, Structural)]
pub struct Blame {
    pub module: crate::hir::ModuleId,
    pub span: Span,
    pub need: Need,
}

/// A type that leaves room for 없음: 없음 itself, or an unknown.
pub open spec fn may_be_nothing(ty: crate::types::Ty) -> bool {
    ty == crate::types::Ty::Nothing || ty == crate::types::Ty::Any
}

/// The places known to hold a real value.
pub open spec fn set_of(sure: Seq<Place>) -> Set<Place> {
    Set::new(|place: Place| sure.contains(place))
}

/// Whether an expression reads a place known to hold a real value.
pub open spec fn held_sure(sure: Set<Place>, expr: Expr) -> bool {
    spec_place_of(expr) matches Some(place) && sure.contains(place)
}

/// What a call's arguments are needed for: real values, unless the callee
/// is a built-in that accepts 없음.
pub open spec fn argument_need(callee: Callee) -> Option<Need> {
    match callee {
        Callee::Op(op) => if spec_tolerates(op) { None } else { Some(Need::Argument(callee)) },
        Callee::User(_) => Some(Need::Argument(callee)),
    }
}

/// The check's view of where it works: the types, the module and the
/// function.
pub struct Scope<'a> {
    pub types: &'a crate::types::Types,
    pub module: crate::hir::ModuleId,
    pub function: Option<crate::hir::FuncId>,
}

/// What is reported for `expr` where a real value is needed for `need`:
/// what its parts report, then the value itself if its type leaves room
/// for 없음 and it is not a place known to hold a real value. It is blamed
/// where it stands, or at `span`.
pub open spec fn demand_blames(s: Scope, expr: Expr, sure: Set<Place>, span: Span, need: Need) -> Seq<Blame>
    decreases expr, 1nat,
{
    walk_blames(s, expr, sure) + if may_be_nothing(crate::types::type_of(*s.types, s.function, expr)) && !held_sure(sure, expr) {
        seq![Blame { module: s.module, span: match spec_spot(expr) { Some(at) => at, None => span }, need }]
    } else {
        Seq::<Blame>::empty()
    }
}

/// What is reported inside `expr`: owners, places and keys need real
/// values, and so do the arguments of calls that need them.
pub open spec fn walk_blames(s: Scope, expr: Expr, sure: Set<Place>) -> Seq<Blame>
    decreases expr, 0nat,
{
    match expr {
        Expr::Field { owner, span, .. } => demand_blames(s, *owner, sure, span, Need::Owner),
        Expr::Index { owner, place, span } => demand_blames(s, *owner, sure, span, Need::Owner)
            + demand_blames(s, *place, sure, span, Need::Place),
        Expr::Pick { owner, key, span } => demand_blames(s, *owner, sure, span, Need::Owner)
            + demand_blames(s, *key, sure, span, Need::Place),
        Expr::Call { callee, args, span } => args_blames(s, args@, sure, span, argument_need(callee)),
        Expr::Template(items) => args_blames(s, items@, sure, Span { line: 0, col: 0, end: 0 }, None),
        Expr::Table(items, entries) => args_blames(s, items@, sure, Span { line: 0, col: 0, end: 0 }, None)
            + entries_blames(s, entries@, sure),
        Expr::Not(inner) => walk_blames(s, *inner, sure),
        Expr::Ask { value, .. } => walk_blames(s, *value, sure),
        Expr::And(left, right) => walk_blames(s, *left, sure) + walk_blames(s, *right, sure),
        Expr::Or(left, right) => walk_blames(s, *left, sure) + walk_blames(s, *right, sure),
        _ => Seq::<Blame>::empty(),
    }
}

/// What the expressions `items` report in order: each demanded for `need`
/// where there is one, else walked.
pub open spec fn args_blames(s: Scope, items: Seq<Expr>, sure: Set<Place>, span: Span, need: Option<Need>) -> Seq<Blame>
    decreases items, 2nat,
{
    if items.len() == 0 {
        Seq::<Blame>::empty()
    } else {
        args_blames(s, items.drop_last(), sure, span, need) + match need {
            Some(what) => demand_blames(s, items.last(), sure, span, what),
            None => walk_blames(s, items.last(), sure),
        }
    }
}

/// What the values of a table's entries report in order.
pub open spec fn entries_blames(s: Scope, entries: Seq<(crate::intern::Symbol, Expr)>, sure: Set<Place>) -> Seq<Blame>
    decreases entries, 2nat,
{
    if entries.len() == 0 {
        Seq::<Blame>::empty()
    } else {
        entries_blames(s, entries.drop_last(), sure) + walk_blames(s, entries.last().1, sure)
    }
}

} // verus!
verus! {

/// The places known after every branch that goes on: those known after
/// all of them, or `entry` when none goes on.
pub open spec fn meet(ends: Seq<Set<Place>>, entry: Set<Place>) -> Set<Place>
    decreases ends.len(),
{
    if ends.len() == 0 {
        entry
    } else if ends.len() == 1 {
        ends[0]
    } else {
        meet(ends.drop_last(), entry).intersect(ends.last())
    }
}

/// What a statement reports, and the places known to hold a real value
/// after it. An assignment makes its place known when the value cannot be
/// 없음 or is itself a known place, and unknown otherwise. A condition
/// that tests a place against 없음 makes it known on the side where it
/// is not; after the whole `만약`, what is known is what every branch that
/// goes on knows. A counted loop makes its counter known; loop bodies
/// leave nothing known after them.
pub open spec fn stmt_blames(s: Scope, statement: Stmt, sure: Set<Place>) -> (Seq<Blame>, Set<Place>)
    decreases statement, 0nat,
{
    match statement {
        Stmt::Assign { place, value } => (
            walk_blames(s, value, sure),
            if !may_be_nothing(crate::types::type_of(*s.types, s.function, value)) || held_sure(sure, value) {
                sure.insert(place)
            } else {
                sure.remove(place)
            },
        ),
        Stmt::SetField { owner, value, span, .. } => (
            demand_blames(s, owner, sure, span, Need::Owner) + walk_blames(s, value, sure),
            sure,
        ),
        Stmt::SetPick { owner, key, value, span } => (
            demand_blames(s, owner, sure, span, Need::Owner) + demand_blames(s, key, sure, span, Need::Place)
                + walk_blames(s, value, sure),
            sure,
        ),
        Stmt::SetAt { owner, place, value, span } => (
            demand_blames(s, owner, sure, span, Need::Owner) + demand_blames(s, place, sure, span, Need::Place)
                + walk_blames(s, value, sure),
            sure,
        ),
        Stmt::Eval(value) => (walk_blames(s, value, sure), sure),
        Stmt::Return { value, .. } => (walk_blames(s, value, sure), sure),
        Stmt::Break => (Seq::<Blame>::empty(), sure),
        Stmt::Continue => (Seq::<Blame>::empty(), sure),
        Stmt::If { branches, otherwise } => {
            let (found, carried, ends) = branches_blames(s, branches@, sure);
            match otherwise {
                Some(body) => {
                    let (inner, after) = block_blames(s, body@, carried);
                    (found + inner, meet(if spec_flows(body@) { ends.push(after) } else { ends }, sure))
                },
                None => (found, meet(ends.push(carried), sure)),
            }
        },
        Stmt::Range { place, start, stop, step, body, span } => {
            let bounds = demand_blames(s, start, sure, span, Need::RangeBound) + demand_blames(s, stop, sure, span, Need::RangeBound)
                + match step {
                Some(by) => demand_blames(s, by, sure, span, Need::RangeBound),
                None => Seq::<Blame>::empty(),
            };
            (bounds + block_blames(s, body@, sure.insert(place)).0, sure.insert(place))
        },
        Stmt::Each { place, over, body, span } => (
            demand_blames(s, over, sure, span, Need::Owner) + block_blames(s, body@, sure.insert(place)).0,
            sure,
        ),
        Stmt::While { test, body } => (walk_blames(s, test, sure) + block_blames(s, body@, sure).0, sure),
    }
}

/// What a body reports, statement by statement, and what is known after it.
pub open spec fn block_blames(s: Scope, body: Seq<Stmt>, sure: Set<Place>) -> (Seq<Blame>, Set<Place>)
    decreases body, 1nat,
{
    if body.len() == 0 {
        (Seq::<Blame>::empty(), sure)
    } else {
        let (before, known) = block_blames(s, body.drop_last(), sure);
        let (last, after) = stmt_blames(s, body.last(), known);
        (before + last, after)
    }
}

/// What the branches of a condition report, what is known on entry to the
/// next branch, and what is known at the end of each branch that goes on.
pub open spec fn branches_blames(s: Scope, branches: Seq<(Expr, Vec<Stmt>)>, entry: Set<Place>) -> (Seq<Blame>, Set<Place>, Seq<Set<Place>>)
    decreases branches, 1nat,
{
    if branches.len() == 0 {
        (Seq::<Blame>::empty(), entry, Seq::<Set<Place>>::empty())
    } else {
        let (found, carried, ends) = branches_blames(s, branches.drop_last(), entry);
        let test = branches.last().0;
        let body = branches.last().1;
        let (inner, next) = match spec_tests_nothing(test) {
            Some((place, asks)) => if asks {
                (carried.remove(place), carried.insert(place))
            } else {
                (carried.insert(place), carried.remove(place))
            },
            None => (carried, carried),
        };
        let (within, after) = block_blames(s, body@, inner);
        (found + walk_blames(s, test, carried) + within, next, if spec_flows(body@) { ends.push(after) } else { ends })
    }
}

} // verus!
verus! {

/// What is reported over the modules' own code from module `first` on,
/// each read with nothing known at its start.
pub open spec fn modules_blames(program: crate::hir::Program, types: crate::types::Types, count: int) -> Seq<Blame>
    decreases count,
{
    if count <= 0 {
        Seq::<Blame>::empty()
    } else {
        modules_blames(program, types, count - 1) + block_blames(
            Scope { types: &types, module: (count - 1) as crate::hir::ModuleId, function: None },
            program.modules@[count - 1].init@,
            Set::<Place>::empty(),
        ).0
    }
}

/// The places of a function's parameters, known on entry.
pub open spec fn params_known(params: Seq<crate::hir::LocalId>) -> Set<Place> {
    Set::new(|place: Place| exists|j: int| 0 <= j < params.len() && place == Place::Local(#[trigger] params[j]))
}

/// What is reported over the first `count` functions, each read with its
/// parameters known.
pub open spec fn functions_blames(program: crate::hir::Program, types: crate::types::Types, count: int) -> Seq<Blame>
    decreases count,
{
    if count <= 0 {
        Seq::<Blame>::empty()
    } else {
        let found = program.functions@[count - 1];
        functions_blames(program, types, count - 1) + block_blames(
            Scope { types: &types, module: found.module, function: Some((count - 1) as crate::hir::FuncId) },
            found.body@,
            params_known(found.params@),
        ).0
    }
}

/// What the check reports over a program: the modules' own code, then the
/// functions, each in order.
pub open spec fn program_blames(program: crate::hir::Program, types: crate::types::Types) -> Seq<Blame> {
    modules_blames(program, types, program.modules@.len() as int) + functions_blames(
        program,
        types,
        program.functions@.len() as int,
    )
}

fn sure_has(sure: &Vec<Place>, place: Place) -> (found: bool)
    ensures
        found == set_of(sure@).contains(place),
{
    let mut i: usize = 0;
    while i < sure.len()
        invariant
            i <= sure@.len(),
            forall|j: int| 0 <= j < i ==> sure@[j] != place,
        decreases sure@.len() - i,
    {
        if sure[i] == place {
            assert(sure@.contains(place));
            return true;
        }
        i += 1;
    }
    false
}

fn sure_insert(sure: &mut Vec<Place>, place: Place)
    ensures
        set_of(final(sure)@) == set_of(old(sure)@).insert(place),
{
    if !sure_has(sure, place) {
        sure.push(place);
    }
    assert(set_of(sure@) =~= set_of(old(sure)@).insert(place)) by {
        broadcast use vstd::seq_lib::group_seq_properties;
    }
}

fn sure_remove(sure: &mut Vec<Place>, place: Place)
    ensures
        set_of(final(sure)@) == set_of(old(sure)@).remove(place),
{
    let mut kept: Vec<Place> = Vec::new();
    let mut i: usize = 0;
    while i < sure.len()
        invariant
            i <= sure@.len(),
            sure@ == old(sure)@,
            set_of(kept@) == set_of(sure@.take(i as int)).remove(place),
        decreases sure@.len() - i,
    {
        let ghost before = kept@;
        if sure[i] != place {
            kept.push(sure[i]);
        }
        assert(sure@.take(i + 1) =~= sure@.take(i as int).push(sure@[i as int]));
        assert forall|p: Place| #[trigger] set_of(kept@).contains(p) == set_of(sure@.take(i + 1)).remove(place).contains(p) by {
            broadcast use vstd::seq_lib::group_seq_properties;
            assert(set_of(before).contains(p) == set_of(sure@.take(i as int)).remove(place).contains(p));
        }
        assert(set_of(kept@) =~= set_of(sure@.take(i + 1)).remove(place));
        i += 1;
    }
    assert(sure@.take(sure@.len() as int) =~= sure@);
    *sure = kept;
}

fn sure_copy(sure: &Vec<Place>) -> (made: Vec<Place>)
    ensures
        made@ == sure@,
{
    let mut made: Vec<Place> = Vec::new();
    let mut i: usize = 0;
    while i < sure.len()
        invariant
            i <= sure@.len(),
            made@ == sure@.take(i as int),
        decreases sure@.len() - i,
    {
        made.push(sure[i]);
        assert(made@ =~= sure@.take(i + 1));
        i += 1;
    }
    assert(sure@.take(sure@.len() as int) =~= sure@);
    made
}

fn sure_meet(found: &Vec<Place>, other: &Vec<Place>) -> (made: Vec<Place>)
    ensures
        set_of(made@) == set_of(found@).intersect(set_of(other@)),
{
    let mut made: Vec<Place> = Vec::new();
    let mut i: usize = 0;
    while i < found.len()
        invariant
            i <= found@.len(),
            set_of(made@) == set_of(found@.take(i as int)).intersect(set_of(other@)),
        decreases found@.len() - i,
    {
        let ghost before = made@;
        if sure_has(other, found[i]) {
            made.push(found[i]);
        }
        assert(found@.take(i + 1) =~= found@.take(i as int).push(found@[i as int]));
        assert forall|p: Place| #[trigger] set_of(made@).contains(p) == set_of(found@.take(i + 1)).intersect(set_of(other@)).contains(p) by {
            broadcast use vstd::seq_lib::group_seq_properties;
            assert(set_of(before).contains(p) == set_of(found@.take(i as int)).intersect(set_of(other@)).contains(p));
        }
        assert(set_of(made@) =~= set_of(found@.take(i + 1)).intersect(set_of(other@)));
        i += 1;
    }
    assert(found@.take(found@.len() as int) =~= found@);
    made
}

fn need_of(callee: Callee) -> (found: Option<Need>)
    ensures
        found == argument_need(callee),
{
    match callee {
        Callee::Op(op) => if tolerates(op) {
            None
        } else {
            Some(Need::Argument(callee))
        },
        Callee::User(_) => Some(Need::Argument(callee)),
    }
}

/// The check at work: where it stands and what it has reported.
pub struct Pass<'a> {
    pub types: &'a crate::types::Types,
    pub errors: Vec<Blame>,
    pub module: crate::hir::ModuleId,
    pub function: Option<crate::hir::FuncId>,
}

impl<'a> Pass<'a> {
    pub open spec fn scope(&self) -> Scope<'a> {
        Scope { types: self.types, module: self.module, function: self.function }
    }

    /// Only the reports grew.
    pub open spec fn reported(&self, before: Pass<'a>, added: Seq<Blame>) -> bool {
        &&& self.types == before.types
        &&& self.module == before.module
        &&& self.function == before.function
        &&& self.errors@ == before.errors@ + added
    }

    /// Checks `expr` where a real value is needed for `need`.
    pub fn demand(&mut self, expr: &Expr, sure: &Vec<Place>, span: Span, need: Need)
        ensures
            final(self).reported(*old(self), demand_blames(old(self).scope(), *expr, set_of(sure@), span, need)),
        decreases expr, 1nat,
    {
        self.walk(expr, sure);
        let ty = self.types.of(self.function, expr);
        let maybe = match ty {
            crate::types::Ty::Nothing => true,
            crate::types::Ty::Any => true,
            _ => false,
        };
        let known = match place_of(expr) {
            Some(place) => sure_has(sure, place),
            None => false,
        };
        if maybe && !known {
            let at = match spot(expr) {
                Some(at) => at,
                None => span,
            };
            self.errors.push(Blame { module: self.module, span: at, need });
        }
        assert(self.errors@ =~= old(self).errors@ + demand_blames(old(self).scope(), *expr, set_of(sure@), span, need));
    }

    /// Checks what `expr` needs of its parts.
    pub fn walk(&mut self, expr: &Expr, sure: &Vec<Place>)
        ensures
            final(self).reported(*old(self), walk_blames(old(self).scope(), *expr, set_of(sure@))),
        decreases expr, 0nat,
    {
        match expr {
            Expr::Field { owner, span, .. } => self.demand(owner, sure, *span, Need::Owner),
            Expr::Index { owner, place, span } => {
                self.demand(owner, sure, *span, Need::Owner);
                self.demand(place, sure, *span, Need::Place);
            },
            Expr::Pick { owner, key, span } => {
                self.demand(owner, sure, *span, Need::Owner);
                self.demand(key, sure, *span, Need::Place);
            },
            Expr::Call { callee, args, span } => self.args(args, sure, *span, need_of(*callee)),
            Expr::Template(items) => self.args(items, sure, Span { line: 0, col: 0, end: 0 }, None),
            Expr::Table(items, entries) => {
                self.args(items, sure, Span { line: 0, col: 0, end: 0 }, None);
                self.entries(entries, sure);
            },
            Expr::Not(inner) => self.walk(inner, sure),
            Expr::Ask { value, .. } => self.walk(value, sure),
            Expr::And(left, right) => {
                self.walk(left, sure);
                self.walk(right, sure);
            },
            Expr::Or(left, right) => {
                self.walk(left, sure);
                self.walk(right, sure);
            },
            _ => {},
        }
        assert(self.errors@ =~= old(self).errors@ + walk_blames(old(self).scope(), *expr, set_of(sure@)));
    }

    /// Checks expressions in order, each demanded for `need` where there
    /// is one (and blamed at `span` when it stands nowhere of its own),
    /// else walked.
    pub fn args(&mut self, items: &Vec<Expr>, sure: &Vec<Place>, span: Span, need: Option<Need>)
        ensures
            final(self).reported(*old(self), args_blames(old(self).scope(), items@, set_of(sure@), span, need)),
        decreases items, 2nat,
    {
        let mut i: usize = 0;
        while i < items.len()
            invariant
                i <= items@.len(),
                self.reported(*old(self), args_blames(old(self).scope(), items@.take(i as int), set_of(sure@), span, need)),
            decreases items@.len() - i,
        {
            proof {
                assert(decreases_to!(items => items@[i as int]));
                assert(items@.take(i + 1).drop_last() =~= items@.take(i as int));
                assert(items@.take(i + 1).last() == items@[i as int]);
            }
            match need {
                Some(what) => self.demand(&items[i], sure, span, what),
                None => self.walk(&items[i], sure),
            }
            assert(self.errors@ =~= old(self).errors@ + args_blames(old(self).scope(), items@.take(i + 1), set_of(sure@), span, need));
            i += 1;
        }
        assert(items@.take(items@.len() as int) =~= items@);
    }

    /// Checks the values of a table's entries in order.
    pub fn entries(&mut self, entries: &Vec<(crate::intern::Symbol, Expr)>, sure: &Vec<Place>)
        ensures
            final(self).reported(*old(self), entries_blames(old(self).scope(), entries@, set_of(sure@))),
        decreases entries, 2nat,
    {
        let mut i: usize = 0;
        while i < entries.len()
            invariant
                i <= entries@.len(),
                self.reported(*old(self), entries_blames(old(self).scope(), entries@.take(i as int), set_of(sure@))),
            decreases entries@.len() - i,
        {
            proof {
                assert(decreases_to!(entries => entries@[i as int]));
                assert(entries@.take(i + 1).drop_last() =~= entries@.take(i as int));
                assert(entries@.take(i + 1).last() == entries@[i as int]);
            }
            self.walk(&entries[i].1, sure);
            assert(self.errors@ =~= old(self).errors@ + entries_blames(old(self).scope(), entries@.take(i + 1), set_of(sure@)));
            i += 1;
        }
        assert(entries@.take(entries@.len() as int) =~= entries@);
    }
}

} // verus!
verus! {

/// The sets a list of place lists stands for.
pub open spec fn sets_of(ends: Seq<Vec<Place>>) -> Seq<Set<Place>> {
    Seq::new(ends.len(), |k: int| set_of(ends[k]@))
}

fn meet_all(ends: &Vec<Vec<Place>>, entry: Vec<Place>) -> (found: Vec<Place>)
    ensures
        set_of(found@) == meet(sets_of(ends@), set_of(entry@)),
{
    if ends.len() == 0 {
        return entry;
    }
    let mut found = sure_copy(&ends[0]);
    assert(sets_of(ends@).take(1).len() == 1);
    let mut k: usize = 1;
    while k < ends.len()
        invariant
            1 <= k <= ends@.len(),
            set_of(found@) == meet(sets_of(ends@).take(k as int), set_of(entry@)),
        decreases ends@.len() - k,
    {
        found = sure_meet(&found, &ends[k]);
        assert(sets_of(ends@).take(k + 1).drop_last() =~= sets_of(ends@).take(k as int));
        assert(sets_of(ends@).take(k + 1).last() == set_of(ends@[k as int]@));
        k += 1;
    }
    assert(sets_of(ends@).take(ends@.len() as int) =~= sets_of(ends@));
    found
}

impl<'a> Pass<'a> {
    /// Checks a statement and updates the places known to hold a real value.
    pub fn stmt(&mut self, statement: &Stmt, sure: &mut Vec<Place>)
        ensures
            final(self).reported(*old(self), stmt_blames(old(self).scope(), *statement, set_of(old(sure)@)).0),
            set_of(final(sure)@) == stmt_blames(old(self).scope(), *statement, set_of(old(sure)@)).1,
        decreases statement, 0nat,
    {
        match statement {
            Stmt::Assign { place, value } => {
                self.walk(value, sure);
                let ty = self.types.of(self.function, value);
                let maybe = match ty {
                    crate::types::Ty::Nothing => true,
                    crate::types::Ty::Any => true,
                    _ => false,
                };
                let known = match place_of(value) {
                    Some(found) => sure_has(sure, found),
                    None => false,
                };
                if !maybe || known {
                    sure_insert(sure, *place);
                } else {
                    sure_remove(sure, *place);
                }
            },
            Stmt::SetField { owner, value, span, .. } => {
                self.demand(owner, sure, *span, Need::Owner);
                self.walk(value, sure);
            },
            Stmt::SetPick { owner, key, value, span } => {
                self.demand(owner, sure, *span, Need::Owner);
                self.demand(key, sure, *span, Need::Place);
                self.walk(value, sure);
            },
            Stmt::SetAt { owner, place, value, span } => {
                self.demand(owner, sure, *span, Need::Owner);
                self.demand(place, sure, *span, Need::Place);
                self.walk(value, sure);
            },
            Stmt::Eval(value) => self.walk(value, sure),
            Stmt::Return { value, .. } => self.walk(value, sure),
            Stmt::Break => {},
            Stmt::Continue => {},
            Stmt::If { branches, otherwise } => {
                let entry = sure_copy(sure);
                let mut ends: Vec<Vec<Place>> = Vec::new();
                let mut carried = sure_copy(sure);
                let mut i: usize = 0;
                assert(branches@.take(0) =~= Seq::<(Expr, Vec<Stmt>)>::empty());
                assert(sets_of(ends@) =~= Seq::<Set<Place>>::empty());
                while i < branches.len()
                    invariant
                        i <= branches@.len(),
                        *statement == (Stmt::If { branches: *branches, otherwise: *otherwise }),
                        entry@ == old(sure)@,
                        self.reported(*old(self), branches_blames(old(self).scope(), branches@.take(i as int), set_of(old(sure)@)).0),
                        set_of(carried@) == branches_blames(old(self).scope(), branches@.take(i as int), set_of(old(sure)@)).1,
                        sets_of(ends@) == branches_blames(old(self).scope(), branches@.take(i as int), set_of(old(sure)@)).2,
                    decreases branches@.len() - i,
                {
                    proof {
                        assert(decreases_to!(*statement => statement->branches));
                        assert(statement->branches == *branches);
                        assert(decreases_to!(branches => branches@[i as int]));
                        assert(decreases_to!(branches@[i as int] => branches@[i as int].1));
                        assert(decreases_to!(*statement => branches@[i as int].1));
                        assert(branches@.take(i + 1).drop_last() =~= branches@.take(i as int));
                        assert(branches@.take(i + 1).last() == branches@[i as int]);
                    }
                    let test = &branches[i].0;
                    let body = &branches[i].1;
                    let ghost held = set_of(carried@);
                    self.walk(test, &carried);
                    let mut inner = sure_copy(&carried);
                    match tests_nothing(test) {
                        Some((place, asks)) => if asks {
                            sure_remove(&mut inner, place);
                            sure_insert(&mut carried, place);
                        } else {
                            sure_insert(&mut inner, place);
                            sure_remove(&mut carried, place);
                        },
                        None => {},
                    }
                    self.block(body, &mut inner);
                    let ghost before = ends@;
                    if flows(body) {
                        ends.push(inner);
                    }
                    assert(sets_of(ends@) =~= branches_blames(old(self).scope(), branches@.take(i + 1), set_of(old(sure)@)).2);
                    assert(self.errors@ =~= old(self).errors@ + branches_blames(old(self).scope(), branches@.take(i + 1), set_of(old(sure)@)).0);
                    i += 1;
                }
                assert(branches@.take(branches@.len() as int) =~= branches@);
                let mut inner = carried;
                match otherwise {
                    Some(body) => {
                        self.block(body, &mut inner);
                        if flows(body) {
                            ends.push(inner);
                        }
                    },
                    None => {
                        ends.push(inner);
                    },
                }
                let ghost found = branches_blames(old(self).scope(), branches@, set_of(old(sure)@));
                assert(sets_of(ends@) =~= match otherwise {
                    Some(body) => if spec_flows(body@) {
                        found.2.push(block_blames(old(self).scope(), body@, found.1).1)
                    } else {
                        found.2
                    },
                    None => found.2.push(found.1),
                });
                *sure = meet_all(&ends, entry);
            },
            Stmt::Range { place, start, stop, step, body, span } => {
                self.demand(start, sure, *span, Need::RangeBound);
                self.demand(stop, sure, *span, Need::RangeBound);
                match step {
                    Some(by) => self.demand(by, sure, *span, Need::RangeBound),
                    None => {},
                }
                sure_insert(sure, *place);
                let mut inner = sure_copy(sure);
                self.block(body, &mut inner);
            },
            Stmt::Each { place, over, body, span } => {
                self.demand(over, sure, *span, Need::Owner);
                let mut inner = sure_copy(sure);
                sure_insert(&mut inner, *place);
                self.block(body, &mut inner);
            },
            Stmt::While { test, body } => {
                self.walk(test, sure);
                let mut inner = sure_copy(sure);
                self.block(body, &mut inner);
            },
        }
        assert(self.errors@ =~= old(self).errors@ + stmt_blames(old(self).scope(), *statement, set_of(old(sure)@)).0);
    }

    /// Checks a body statement by statement.
    pub fn block(&mut self, body: &Vec<Stmt>, sure: &mut Vec<Place>)
        ensures
            final(self).reported(*old(self), block_blames(old(self).scope(), body@, set_of(old(sure)@)).0),
            set_of(final(sure)@) == block_blames(old(self).scope(), body@, set_of(old(sure)@)).1,
        decreases body, 1nat,
    {
        let mut i: usize = 0;
        assert(body@.take(0) =~= Seq::<Stmt>::empty());
        while i < body.len()
            invariant
                i <= body@.len(),
                self.reported(*old(self), block_blames(old(self).scope(), body@.take(i as int), set_of(old(sure)@)).0),
                set_of(sure@) == block_blames(old(self).scope(), body@.take(i as int), set_of(old(sure)@)).1,
            decreases body@.len() - i,
        {
            proof {
                assert(decreases_to!(body => body@[i as int]));
                assert(body@.take(i + 1).drop_last() =~= body@.take(i as int));
                assert(body@.take(i + 1).last() == body@[i as int]);
            }
            self.stmt(&body[i], sure);
            assert(self.errors@ =~= old(self).errors@ + block_blames(old(self).scope(), body@.take(i + 1), set_of(old(sure)@)).0);
            i += 1;
        }
        assert(body@.take(body@.len() as int) =~= body@);
    }
}

/// Finds each use of a value that may be 없음 where a real one is needed,
/// over the modules' own code and then over the functions, in order.
pub fn check(program: &crate::hir::Program, types: &crate::types::Types) -> (errors: Vec<Blame>)
    requires
        program.modules@.len() <= u32::MAX,
        program.functions@.len() <= u32::MAX,
    ensures
        errors@ == program_blames(*program, *types),
{
    let mut pass = Pass { types, errors: Vec::new(), module: 0, function: None };
    let mut id: usize = 0;
    while id < program.modules.len()
        invariant
            id <= program.modules@.len(),
            program.modules@.len() <= u32::MAX,
            pass.types == types,
            pass.errors@ == modules_blames(*program, *types, id as int),
        decreases program.modules@.len() - id,
    {
        pass.module = id as crate::hir::ModuleId;
        pass.function = None;
        let mut sure: Vec<Place> = Vec::new();
        assert(set_of(sure@) =~= Set::<Place>::empty());
        pass.block(&program.modules[id].init, &mut sure);
        id += 1;
    }
    let ghost modules = pass.errors@;
    let mut id: usize = 0;
    while id < program.functions.len()
        invariant
            id <= program.functions@.len(),
            program.functions@.len() <= u32::MAX,
            pass.types == types,
            pass.errors@ == modules + functions_blames(*program, *types, id as int),
        decreases program.functions@.len() - id,
    {
        let found = &program.functions[id];
        pass.module = found.module;
        pass.function = Some(id as crate::hir::FuncId);
        let mut sure: Vec<Place> = Vec::new();
        let mut j: usize = 0;
        while j < found.params.len()
            invariant
                j <= found.params@.len(),
                set_of(sure@) == params_known(found.params@.take(j as int)),
            decreases found.params@.len() - j,
        {
            let ghost before = sure@;
            sure.push(Place::Local(found.params[j]));
            assert forall|p: Place| #[trigger] set_of(sure@).contains(p) == params_known(found.params@.take(j + 1)).contains(p) by {
                broadcast use vstd::seq_lib::group_seq_properties;
                assert(set_of(before).contains(p) == params_known(found.params@.take(j as int)).contains(p));
                if params_known(found.params@.take(j + 1)).contains(p) {
                    let k = choose|k: int| 0 <= k < j + 1 && p == Place::Local(#[trigger] found.params@.take(j + 1)[k]);
                    if k < j {
                        assert(found.params@.take(j as int)[k] == found.params@.take(j + 1)[k]);
                    }
                }
                if set_of(before).contains(p) {
                    let k = choose|k: int| 0 <= k < j && p == Place::Local(#[trigger] found.params@.take(j as int)[k]);
                    assert(found.params@.take(j + 1)[k] == found.params@.take(j as int)[k]);
                }
                if p == Place::Local(found.params@[j as int]) {
                    assert(found.params@.take(j + 1)[j as int] == found.params@[j as int]);
                }
            }
            assert(set_of(sure@) =~= params_known(found.params@.take(j + 1)));
            j += 1;
        }
        assert(found.params@.take(found.params@.len() as int) =~= found.params@);
        pass.block(&found.body, &mut sure);
        id += 1;
    }
    pass.errors
}

} // verus!
verus! {

/// After a condition, a place is known only if it is known at the end of
/// every branch that goes on.
pub proof fn law_known_after_every_branch(ends: Seq<Set<Place>>, entry: Set<Place>, k: int, place: Place)
    requires
        0 <= k < ends.len(),
        meet(ends, entry).contains(place),
    ensures
        ends[k].contains(place),
    decreases ends.len(),
{
    if ends.len() > 1 {
        if k < ends.len() - 1 {
            assert(ends.drop_last()[k] == ends[k]);
            law_known_after_every_branch(ends.drop_last(), entry, k, place);
        }
    }
}

/// A place known at the end of every branch that goes on is known after
/// the condition; when no branch goes on, what was known before stays.
pub proof fn law_known_when_known_everywhere(ends: Seq<Set<Place>>, entry: Set<Place>, place: Place)
    requires
        forall|k: int| 0 <= k < ends.len() ==> #[trigger] ends[k].contains(place),
        ends.len() == 0 ==> entry.contains(place),
    ensures
        meet(ends, entry).contains(place),
    decreases ends.len(),
{
    if ends.len() > 1 {
        assert forall|k: int| 0 <= k < ends.drop_last().len() implies #[trigger] ends.drop_last()[k].contains(place) by {
            assert(ends.drop_last()[k] == ends[k]);
        }
        law_known_when_known_everywhere(ends.drop_last(), entry, place);
        assert(ends.last().contains(place));
    }
}

} // verus!
verus! {

/// Only printing, stopping, equality and truth tests accept 없음. Any other
/// built-in given a value that may be 없음, read from a place not known to
/// hold a real value, is blamed at the call as needing a real argument;
/// those four are not.
pub proof fn law_strict_builtins_blame(s: Scope, callee: Callee, args: Vec<Expr>, span: Span, sure: Set<Place>, slot: crate::hir::GlobalId)
    requires
        args@ == seq![Expr::Global(slot)],
        ({
            let ty = crate::types::type_of(*s.types, s.function, Expr::Global(slot));
            ty == crate::types::Ty::Nothing || ty == crate::types::Ty::Any
        }),
        !sure.contains(Place::Global(slot)),
    ensures
        callee matches Callee::Op(op) ==> {
            let blames = walk_blames(s, Expr::Call { callee, args, span }, sure);
            &&& (op == Builtin::Print || op == Builtin::Stop || op == Builtin::Equal || op == Builtin::Truthy)
                ==> blames == Seq::<Blame>::empty()
            &&& !(op == Builtin::Print || op == Builtin::Stop || op == Builtin::Equal || op == Builtin::Truthy)
                ==> blames == seq![Blame { module: s.module, span, need: Need::Argument(callee) }]
        },
        callee is User ==> walk_blames(s, Expr::Call { callee, args, span }, sure) == seq![
            Blame { module: s.module, span, need: Need::Argument(callee) },
        ],
{
    assert(args@.drop_last() =~= Seq::<Expr>::empty());
    assert(args@.last() == Expr::Global(slot));
    let g = Expr::Global(slot);
    assert(args_blames(s, Seq::<Expr>::empty(), sure, span, argument_need(callee)) == Seq::<Blame>::empty());
    assert(walk_blames(s, g, sure) == Seq::<Blame>::empty());
    assert(!held_sure(sure, g));
    assert(spec_spot(g) is None);
    let expected = seq![Blame { module: s.module, span, need: Need::Argument(callee) }];
    assert(demand_blames(s, g, sure, span, Need::Argument(callee)) =~= expected);
    let found = args_blames(s, args@, sure, span, argument_need(callee));
    match argument_need(callee) {
        Some(what) => {
            assert(found =~= Seq::<Blame>::empty() + demand_blames(s, g, sure, span, what));
        },
        None => {
            assert(found =~= Seq::<Blame>::empty() + walk_blames(s, g, sure));
        },
    }
    assert(walk_blames(s, Expr::Call { callee, args, span }, sure) == found);
}

} // verus!
verus! {

/// The owner of a field must be a real value: an owner that may be 없음
/// and is a place not known to hold a real value is blamed at the field;
/// one known to hold a real value is not.
pub proof fn law_owner_blame(s: Scope, slot: crate::hir::GlobalId, field: crate::intern::Symbol, span: Span, sure: Set<Place>)
    requires
        ({
            let ty = crate::types::type_of(*s.types, s.function, Expr::Global(slot));
            ty == crate::types::Ty::Nothing || ty == crate::types::Ty::Any
        }),
    ensures
        !sure.contains(Place::Global(slot)) ==> walk_blames(
            s,
            Expr::Field { owner: Box::new(Expr::Global(slot)), field, span },
            sure,
        ) == seq![Blame { module: s.module, span, need: Need::Owner }],
        sure.contains(Place::Global(slot)) ==> walk_blames(
            s,
            Expr::Field { owner: Box::new(Expr::Global(slot)), field, span },
            sure,
        ) == Seq::<Blame>::empty(),
{
    let g = Expr::Global(slot);
    assert(walk_blames(s, g, sure) == Seq::<Blame>::empty());
    assert(demand_blames(s, g, sure, span, Need::Owner) =~= if sure.contains(Place::Global(slot)) {
        Seq::<Blame>::empty()
    } else {
        seq![Blame { module: s.module, span, need: Need::Owner }]
    });
}

/// An assignment of a value that cannot be 없음 makes its place known to
/// hold a real value; an assignment of 없음 itself makes it unknown; what
/// is known of other places does not change.
pub proof fn law_assignment_knowledge(s: Scope, place: Place, value: Expr, sure: Set<Place>, other: Place)
    requires
        other != place,
    ensures
        ({
            let ty = crate::types::type_of(*s.types, s.function, value);
            let after = stmt_blames(s, Stmt::Assign { place, value }, sure).1;
            &&& ty != crate::types::Ty::Nothing && ty != crate::types::Ty::Any ==> after.contains(place)
            &&& value is Nothing ==> !after.contains(place)
            &&& after.contains(other) == sure.contains(other)
        }),
{
}

/// A condition `X가 없음이 아니면` makes X known inside its branch, and the
/// branch's reports are those of its body read with X known; with no
/// otherwise-branch, X is known after the condition only if it was before
/// or the body makes it known and goes on.
pub proof fn law_test_makes_known(s: Scope, slot: crate::hir::GlobalId, args: Vec<Expr>, span: Span, body: Vec<Stmt>, branches: Vec<(Expr, Vec<Stmt>)>, sure: Set<Place>)
    requires
        args@ == seq![Expr::Global(slot), Expr::Nothing],
        branches@ == seq![(Expr::Not(Box::new(Expr::Call { callee: Callee::Op(Builtin::Equal), args, span })), body)],
    ensures
        ({
            let test = Expr::Not(Box::new(Expr::Call { callee: Callee::Op(Builtin::Equal), args, span }));
            let place = Place::Global(slot);
            stmt_blames(s, Stmt::If { branches, otherwise: None }, sure).0 == walk_blames(s, test, sure)
                + block_blames(s, body@, sure.insert(place)).0
        }),
{
    let test = Expr::Not(Box::new(Expr::Call { callee: Callee::Op(Builtin::Equal), args, span }));
    assert(branches@.drop_last() =~= Seq::<(Expr, Vec<Stmt>)>::empty());
    assert(branches@.last() == (test, body));
    assert(spec_tests_nothing(Expr::Call { callee: Callee::Op(Builtin::Equal), args, span }) == Some((Place::Global(slot), true)));
    assert(spec_tests_nothing(test) == Some((Place::Global(slot), false)));
    let place = Place::Global(slot);
    assert(branches_blames(s, branches@.drop_last(), sure) == (Seq::<Blame>::empty(), sure, Seq::<Set<Place>>::empty()));
    let within = block_blames(s, body@, sure.insert(place));
    assert(branches_blames(s, branches@, sure).0 == Seq::<Blame>::empty() + walk_blames(s, test, sure) + within.0);
    assert(Seq::<Blame>::empty() + walk_blames(s, test, sure) + within.0 =~= walk_blames(s, test, sure) + within.0);
}

} // verus!
verus! {

/// A counted loop needs real bounds and makes its counter known, in its
/// body and after it; an `마다` loop needs a real table and makes its item
/// known only in its body; a `동안` loop's test may be 없음 (it is only
/// walked) and neither loop changes what is known after it.
pub proof fn law_loop_knowledge(s: Scope, statement: Stmt, sure: Set<Place>)
    ensures
        statement matches Stmt::Range { place, start, stop, step, body, span } ==> {
            let found = stmt_blames(s, statement, sure);
            &&& found.1 == sure.insert(place)
            &&& step is None ==> found.0 == demand_blames(s, start, sure, span, Need::RangeBound) + demand_blames(
                s,
                stop,
                sure,
                span,
                Need::RangeBound,
            ) + block_blames(s, body@, sure.insert(place)).0
        },
        statement matches Stmt::Each { place, over, body, span } ==> stmt_blames(s, statement, sure) == (
            demand_blames(s, over, sure, span, Need::Owner) + block_blames(s, body@, sure.insert(place)).0,
            sure,
        ),
        statement matches Stmt::While { test, body } ==> stmt_blames(s, statement, sure) == (
            walk_blames(s, test, sure) + block_blames(s, body@, sure).0,
            sure,
        ),
{
    match statement {
        Stmt::Range { place, start, stop, step, body, span } => {
            if step is None {
                assert(demand_blames(s, start, sure, span, Need::RangeBound) + demand_blames(s, stop, sure, span, Need::RangeBound)
                    + Seq::<Blame>::empty() =~= demand_blames(s, start, sure, span, Need::RangeBound) + demand_blames(
                    s,
                    stop,
                    sure,
                    span,
                    Need::RangeBound,
                ));
            }
        },
        _ => {},
    }
}

} // verus!
