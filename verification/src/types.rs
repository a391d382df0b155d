//! The types the code generator infers for places: a lattice of height
//! three, `Never` below every concrete type and `Any` above them; which
//! bodies always return; the bodies under a statement; the text constants
//! that globals stored into once hold; the type of an expression; and the
//! inference itself, which raises each place until it holds every value
//! the program passes to it.

use vstd::prelude::*;

use crate::hir::{FuncId, Place};
use crate::intern::Symbol;

verus! {

#[derive(Clone, Copy, PartialEq, Eq, Debug, Structural)]
pub enum Ty {
    Never,
    Nothing,
    Bool,
    Int,
    Float,
    Str,
    Table,
    Any,
}

/// The least type above both.
pub open spec fn ty_join(left: Ty, right: Ty) -> Ty {
    if left == right {
        left
    } else if left == Ty::Never {
        right
    } else if right == Ty::Never {
        left
    } else {
        Ty::Any
    }
}

/// The order of the lattice: `Never` below all, `Any` above all, the
/// concrete types side by side.
pub open spec fn ty_le(below: Ty, above: Ty) -> bool {
    below == above || below == Ty::Never || above == Ty::Any
}

/// A number type.
pub open spec fn ty_number(ty: Ty) -> bool {
    ty == Ty::Int || ty == Ty::Float
}

impl Ty {
    pub fn join(self, other: Ty) -> (joined: Ty)
        ensures
            joined == ty_join(self, other),
    {
        if self == other {
            self
        } else if self == Ty::Never {
            other
        } else if other == Ty::Never {
            self
        } else {
            Ty::Any
        }
    }

    pub fn number(self) -> (found: bool)
        ensures
            found == ty_number(self),
    {
        self == Ty::Int || self == Ty::Float
    }
}

/// The type of arithmetic on two operands: integers stay integers, other
/// numbers become reals, anything else is unknown.
pub open spec fn ty_arithmetic(left: Ty, right: Ty) -> Ty {
    if left == Ty::Int && right == Ty::Int {
        Ty::Int
    } else if ty_number(left) && ty_number(right) {
        Ty::Float
    } else {
        Ty::Any
    }
}

pub fn arithmetic(left: Ty, right: Ty) -> (found: Ty)
    ensures
        found == ty_arithmetic(left, right),
{
    if left == Ty::Int && right == Ty::Int {
        Ty::Int
    } else if left.number() && right.number() {
        Ty::Float
    } else {
        Ty::Any
    }
}

/// Joining is commutative, associative and idempotent, with `Never` as
/// its unit and `Any` absorbing.
pub proof fn law_join_semilattice(a: Ty, b: Ty, c: Ty)
    ensures
        ty_join(a, b) == ty_join(b, a),
        ty_join(ty_join(a, b), c) == ty_join(a, ty_join(b, c)),
        ty_join(a, a) == a,
        ty_join(Ty::Never, a) == a,
        ty_join(Ty::Any, a) == Ty::Any,
{
}

/// The join is the least upper bound in the lattice order.
pub proof fn law_join_least_upper_bound(a: Ty, b: Ty, c: Ty)
    ensures
        ty_le(a, ty_join(a, b)),
        ty_le(b, ty_join(a, b)),
        ty_le(a, c) && ty_le(b, c) ==> ty_le(ty_join(a, b), c),
{
}

/// The lattice has height three: a type that a join moves can move at
/// most twice, from `Never` to a concrete type to `Any`.
pub proof fn law_join_height(a: Ty, b: Ty)
    ensures
        ty_join(a, b) == a || a == Ty::Never || ty_join(a, b) == Ty::Any,
        a == Ty::Any ==> ty_join(a, b) == Ty::Any,
{
}

/// Raises `slot` to take `found` in, noting in `moved` when it changed.
pub fn raise(slot: &mut Ty, found: Ty, moved: &mut bool)
    ensures
        *final(slot) == ty_join(*old(slot), found),
        *final(moved) == (*old(moved) || ty_join(*old(slot), found) != *old(slot)),
{
    let joined = slot.join(found);
    if joined != *slot {
        *slot = joined;
        *moved = true;
    }
}

/// The field names whose types the inference knows: `자료형`, `길이` and
/// `명칭`, where the program uses them.
#[derive(Default)]
pub struct Fields {
    pub kind: Option<Symbol>,
    pub length: Option<Symbol>,
    pub names: Option<Symbol>,
}

/// What the inference found: the types of globals, of each function's
/// locals and of its result, the functions that define each noun field,
/// and the text constants held by globals set once.
pub struct Types {
    pub fields: Fields,
    pub nouns: Vec<(Symbol, Vec<FuncId>)>,
    pub globals: Vec<Ty>,
    pub locals: Vec<Vec<Ty>>,
    pub returns: Vec<Ty>,
    pub constants: Vec<Option<String>>,
}

impl Types {
    /// The type of a place: a global's, or a local's in `function`; a local
    /// outside any function is unknown.
    pub fn place(&self, function: Option<FuncId>, place: Place) -> (found: Ty)
        requires
            place matches Place::Global(slot) ==> slot < self.globals@.len(),
            place matches Place::Local(slot) ==> (function matches Some(id) ==> id < self.locals@.len()
                && slot < self.locals@[id as int]@.len()),
        ensures
            found == match place {
                Place::Global(slot) => self.globals@[slot as int],
                Place::Local(slot) => match function {
                    Some(id) => self.locals@[id as int]@[slot as int],
                    None => Ty::Any,
                },
            },
    {
        match place {
            Place::Global(slot) => self.globals[slot as usize],
            Place::Local(slot) => match function {
                Some(id) => self.locals[id as usize][slot as usize],
                None => Ty::Any,
            },
        }
    }
}

} // verus!
verus! {

/// A body after whose end control never comes: its last statement
/// returns, stops the program (`종료한다` does not come back), or is a
/// condition with an otherwise-branch whose every branch always returns.
pub open spec fn returns_always(body: Seq<crate::hir::Stmt>) -> bool
    decreases body,
{
    if body.len() == 0 {
        false
    } else {
        match body.last() {
            crate::hir::Stmt::Return { .. } => true,
            crate::hir::Stmt::Eval(crate::hir::Expr::Call { callee: crate::hir::Callee::Op(crate::builtins::Builtin::Stop), .. }) => true,
            crate::hir::Stmt::If { branches, otherwise: Some(rest) } => all_return(branches@) && returns_always(rest@),
            _ => false,
        }
    }
}

/// Every branch of a condition always returns.
pub open spec fn all_return(branches: Seq<(crate::hir::Expr, Vec<crate::hir::Stmt>)>) -> bool
    decreases branches,
{
    if branches.len() == 0 {
        true
    } else {
        all_return(branches.drop_last()) && returns_always(branches.last().1@)
    }
}

/// Whether control never comes past the end of `body`.
pub fn always_returns(body: &Vec<crate::hir::Stmt>) -> (found: bool)
    ensures
        found == returns_always(body@),
    decreases body,
{
    if body.len() == 0 {
        return false;
    }
    let last = &body[body.len() - 1];
    assert(body@.last() == *last);
    match last {
        crate::hir::Stmt::Return { .. } => true,
        crate::hir::Stmt::Eval(crate::hir::Expr::Call { callee: crate::hir::Callee::Op(crate::builtins::Builtin::Stop), .. }) => true,
        crate::hir::Stmt::If { branches, otherwise: Some(rest) } => {
            assert(decreases_to!(*body => body[body.len() - 1]));
            assert(decreases_to!(*last => last->If_branches));
            assert(decreases_to!(*last => last->If_otherwise));
            assert(decreases_to!(last->If_otherwise => last->If_otherwise->Some_0));
            let mut every = true;
            let mut at: usize = 0;
            while at < branches.len()
                invariant
                    at <= branches@.len(),
                    every == all_return(branches@.take(at as int)),
                    decreases_to!(*body => *branches),
                decreases branches@.len() - at,
            {
                assert(branches@.take(at + 1).drop_last() =~= branches@.take(at as int));
                assert(decreases_to!(*branches => branches[at as int]));
                assert(decreases_to!(branches[at as int] => branches[at as int].1));
                if !always_returns(&branches[at].1) {
                    every = false;
                }
                at += 1;
            }
            assert(branches@.take(branches@.len() as int) =~= branches@);
            every && always_returns(rest)
        },
        _ => false,
    }
}

} // verus!
verus! {

/// The bodies directly under a statement: those of a condition's branches
/// and of its otherwise-branch, or the body of a loop.
pub open spec fn blocks_of(statement: crate::hir::Stmt) -> Seq<Vec<crate::hir::Stmt>> {
    match statement {
        crate::hir::Stmt::If { branches, otherwise } => branch_bodies(branches@) + match otherwise {
            Some(rest) => seq![rest],
            None => Seq::<Vec<crate::hir::Stmt>>::empty(),
        },
        crate::hir::Stmt::Range { body, .. } => seq![body],
        crate::hir::Stmt::While { body, .. } => seq![body],
        crate::hir::Stmt::Each { body, .. } => seq![body],
        _ => Seq::<Vec<crate::hir::Stmt>>::empty(),
    }
}

pub open spec fn branch_bodies(branches: Seq<(crate::hir::Expr, Vec<crate::hir::Stmt>)>) -> Seq<Vec<crate::hir::Stmt>> {
    Seq::new(branches.len(), |i: int| branches[i].1)
}

pub open spec fn bodies<'b>(found: Seq<&'b Vec<crate::hir::Stmt>>) -> Seq<Vec<crate::hir::Stmt>> {
    Seq::new(found.len(), |i: int| *found[i])
}

/// Each body under a statement is smaller than the statement.
pub proof fn lemma_blocks_smaller(statement: crate::hir::Stmt, i: int)
    requires
        0 <= i < blocks_of(statement).len(),
    ensures
        decreases_to!(statement => blocks_of(statement)[i]),
{
    match statement {
        crate::hir::Stmt::If { branches, otherwise } => {
            if i < branches@.len() {
                assert(decreases_to!(statement => branches));
                assert(decreases_to!(branches => branches[i]));
                assert(decreases_to!(branches[i] => branches[i].1));
            } else {
                assert(decreases_to!(statement => otherwise));
                assert(decreases_to!(otherwise => otherwise->Some_0));
            }
        },
        _ => {},
    }
}

/// The bodies directly under a statement.
pub fn blocks<'b>(statement: &'b crate::hir::Stmt) -> (found: Vec<&'b Vec<crate::hir::Stmt>>)
    ensures
        bodies(found@) == blocks_of(*statement),
{
    let mut found: Vec<&'b Vec<crate::hir::Stmt>> = Vec::new();
    match statement {
        crate::hir::Stmt::If { branches, otherwise } => {
            let mut at: usize = 0;
            while at < branches.len()
                invariant
                    at <= branches@.len(),
                    found@.len() == at,
                    forall|i: int| 0 <= i < at ==> *found@[i] == branches@[i].1,
                decreases branches@.len() - at,
            {
                found.push(&branches[at].1);
                at += 1;
            }
            assert(bodies(found@) =~= branch_bodies(branches@));
            match otherwise {
                Some(rest) => found.push(rest),
                None => {},
            }
        },
        crate::hir::Stmt::Range { body, .. } => found.push(body),
        crate::hir::Stmt::While { body, .. } => found.push(body),
        crate::hir::Stmt::Each { body, .. } => found.push(body),
        _ => {},
    }
    assert(bodies(found@) =~= blocks_of(*statement));
    found
}

} // verus!
verus! {

/// One store into a global, as the search for text constants counts it:
/// the global, how much it counts, and the text stored when the value is a
/// string literal.
pub type SetEvent = (crate::hir::GlobalId, nat, Option<Seq<char>>);

/// The stores a statement makes itself: an assignment to a global counts
/// once (with its text when it stores a string literal); a counted loop
/// over a global counts twice, since it stores many values.
pub open spec fn own_sets(statement: crate::hir::Stmt) -> Seq<SetEvent> {
    match statement {
        crate::hir::Stmt::Assign { place: Place::Global(slot), value } => seq![(slot, 1nat, match value {
            crate::hir::Expr::Str(text) => Some(text@),
            _ => None,
        })],
        crate::hir::Stmt::Range { place: Place::Global(slot), .. } => seq![(slot, 2nat, None::<Seq<char>>)],
        _ => Seq::<SetEvent>::empty(),
    }
}

/// The stores of a body, in order, each statement's own before those of
/// the bodies under it.
pub open spec fn block_sets(body: Seq<crate::hir::Stmt>) -> Seq<SetEvent>
    decreases body,
{
    if body.len() == 0 {
        Seq::<SetEvent>::empty()
    } else {
        block_sets(body.drop_last()) + own_sets(body.last()) + inner_sets(body.last())
    }
}

/// The stores of the bodies directly under a statement.
pub open spec fn inner_sets(statement: crate::hir::Stmt) -> Seq<SetEvent>
    decreases statement,
{
    match statement {
        crate::hir::Stmt::If { branches, otherwise } => bodies_sets(branches@) + match otherwise {
            Some(rest) => block_sets(rest@),
            None => Seq::<SetEvent>::empty(),
        },
        crate::hir::Stmt::Range { body, .. } => block_sets(body@),
        crate::hir::Stmt::While { body, .. } => block_sets(body@),
        crate::hir::Stmt::Each { body, .. } => block_sets(body@),
        _ => Seq::<SetEvent>::empty(),
    }
}

pub open spec fn bodies_sets(branches: Seq<(crate::hir::Expr, Vec<crate::hir::Stmt>)>) -> Seq<SetEvent>
    decreases branches,
{
    if branches.len() == 0 {
        Seq::<SetEvent>::empty()
    } else {
        bodies_sets(branches.drop_last()) + block_sets(branches.last().1@)
    }
}

/// The stores of several bodies, one after another.
pub open spec fn nested_sets(blocks: Seq<Vec<crate::hir::Stmt>>) -> Seq<SetEvent>
    decreases blocks.len(),
{
    if blocks.len() == 0 {
        Seq::<SetEvent>::empty()
    } else {
        nested_sets(blocks.drop_last()) + block_sets(blocks.last()@)
    }
}

/// The stores of a whole program: the modules' top levels in order, then
/// the functions' bodies.
pub open spec fn program_sets(program: crate::hir::Program) -> Seq<SetEvent> {
    nested_sets(Seq::new(program.modules@.len(), |i: int| program.modules@[i].init))
        + nested_sets(Seq::new(program.functions@.len(), |i: int| program.functions@[i].body))
}

/// How much the stores into `slot` count.
pub open spec fn set_count(events: Seq<SetEvent>, slot: crate::hir::GlobalId) -> nat
    decreases events.len(),
{
    if events.len() == 0 {
        0
    } else {
        set_count(events.drop_last(), slot) + if events.last().0 == slot { events.last().1 } else { 0nat }
    }
}

/// The text of the last string literal stored into `slot`, or `start`
/// when there is none.
pub open spec fn text_after(events: Seq<SetEvent>, slot: crate::hir::GlobalId, start: Option<Seq<char>>) -> Option<Seq<char>>
    decreases events.len(),
{
    if events.len() == 0 {
        start
    } else if events.last().0 == slot && events.last().2 is Some {
        events.last().2
    } else {
        text_after(events.drop_last(), slot, start)
    }
}

/// Every store goes into one of the first `limit` globals.
pub open spec fn sets_within(events: Seq<SetEvent>, limit: int) -> bool {
    forall|i: int| 0 <= i < events.len() ==> (#[trigger] events[i]).0 < limit
}

/// A count that only tells none, one and more apart.
pub open spec fn capped(count: int) -> int {
    if count >= 2 { 2 } else { count }
}

pub open spec fn text_of(found: Option<String>) -> Option<Seq<char>> {
    match found {
        Some(text) => Some(text@),
        None => None,
    }
}

/// The text constants of a program: for each global stored into exactly
/// once, and by a string literal, that string.
pub open spec fn constants_spec(program: crate::hir::Program, slot: crate::hir::GlobalId) -> Option<Seq<char>> {
    if set_count(program_sets(program), slot) == 1 {
        text_after(program_sets(program), slot, None)
    } else {
        None
    }
}

proof fn lemma_sets_append(a: Seq<SetEvent>, b: Seq<SetEvent>, slot: crate::hir::GlobalId, start: Option<Seq<char>>)
    ensures
        set_count(a + b, slot) == set_count(a, slot) + set_count(b, slot),
        text_after(a + b, slot, start) == text_after(b, slot, text_after(a, slot, start)),
    decreases b.len(),
{
    if b.len() == 0 {
        assert(a + b =~= a);
    } else {
        assert((a + b).drop_last() =~= a + b.drop_last());
        lemma_sets_append(a, b.drop_last(), slot, start);
    }
}

proof fn lemma_within_append(a: Seq<SetEvent>, b: Seq<SetEvent>, limit: int)
    ensures
        sets_within(a + b, limit) <==> sets_within(a, limit) && sets_within(b, limit),
{
    if sets_within(a + b, limit) {
        assert forall|i: int| 0 <= i < b.len() implies (#[trigger] b[i]).0 < limit by {
            assert((a + b)[a.len() + i] == b[i]);
        }
        assert forall|i: int| 0 <= i < a.len() implies (#[trigger] a[i]).0 < limit by {
            assert((a + b)[i] == a[i]);
        }
    }
}

proof fn lemma_inner_nested(statement: crate::hir::Stmt)
    ensures
        inner_sets(statement) == nested_sets(blocks_of(statement)),
{
    match statement {
        crate::hir::Stmt::If { branches, otherwise } => {
            lemma_bodies_nested(branches@);
            match otherwise {
                Some(rest) => {
                    let listed = branch_bodies(branches@) + seq![rest];
                    assert(listed.drop_last() =~= branch_bodies(branches@));
                    assert(listed.last() == rest);
                    assert(blocks_of(statement) == listed);
                    assert(nested_sets(listed) == nested_sets(branch_bodies(branches@)) + block_sets(rest@));
                    assert(inner_sets(statement) == bodies_sets(branches@) + block_sets(rest@));
                    assert(inner_sets(statement) == nested_sets(blocks_of(statement)));
                },
                None => {
                    assert(branch_bodies(branches@) + Seq::<Vec<crate::hir::Stmt>>::empty() =~= branch_bodies(branches@));
                    assert(bodies_sets(branches@) + Seq::<SetEvent>::empty() =~= bodies_sets(branches@));
                    assert(inner_sets(statement) == bodies_sets(branches@));
                    assert(blocks_of(statement) == branch_bodies(branches@));
                    assert(inner_sets(statement) == nested_sets(blocks_of(statement)));
                },
            }
        },
        crate::hir::Stmt::Range { body, .. } => lemma_nested_single(body),
        crate::hir::Stmt::While { body, .. } => lemma_nested_single(body),
        crate::hir::Stmt::Each { body, .. } => lemma_nested_single(body),
        _ => {},
    }
}

proof fn lemma_nested_single(body: Vec<crate::hir::Stmt>)
    ensures
        nested_sets(seq![body]) == block_sets(body@),
{
    let listed = seq![body];
    assert(listed.drop_last() =~= Seq::<Vec<crate::hir::Stmt>>::empty());
    assert(listed.last() == body);
    assert(nested_sets(Seq::<Vec<crate::hir::Stmt>>::empty()) == Seq::<SetEvent>::empty());
    assert(nested_sets(listed) == nested_sets(listed.drop_last()) + block_sets(body@));
    assert(Seq::<SetEvent>::empty() + block_sets(body@) =~= block_sets(body@));
}

proof fn lemma_bodies_nested(branches: Seq<(crate::hir::Expr, Vec<crate::hir::Stmt>)>)
    ensures
        bodies_sets(branches) == nested_sets(branch_bodies(branches)),
    decreases branches.len(),
{
    if branches.len() > 0 {
        assert(branch_bodies(branches).drop_last() =~= branch_bodies(branches.drop_last()));
        lemma_bodies_nested(branches.drop_last());
    }
}

proof fn lemma_nested_step(blocks: Seq<Vec<crate::hir::Stmt>>, k: int)
    requires
        0 <= k < blocks.len(),
    ensures
        nested_sets(blocks.take(k + 1)) == nested_sets(blocks.take(k)) + block_sets(blocks[k]@),
{
    assert(blocks.take(k + 1).drop_last() =~= blocks.take(k));
}

proof fn lemma_block_step(body: Seq<crate::hir::Stmt>, k: int)
    requires
        0 <= k < body.len(),
    ensures
        block_sets(body.take(k + 1)) == block_sets(body.take(k)) + own_sets(body[k]) + inner_sets(body[k]),
{
    assert(body.take(k + 1).drop_last() =~= body.take(k));
}

/// Where the counts and texts stand after taking in `events`.
pub open spec fn counted(
    counts: Seq<usize>,
    found: Seq<Option<String>>,
    counts0: Seq<usize>,
    found0: Seq<Option<String>>,
    events: Seq<SetEvent>,
) -> bool {
    &&& counts.len() == counts0.len()
    &&& found.len() == found0.len()
    &&& forall|g: int| 0 <= g < counts.len() ==> #[trigger] counts[g] == capped(counts0[g] + set_count(events, g as crate::hir::GlobalId))
    &&& forall|g: int| 0 <= g < found.len() ==> #[trigger] text_of(found[g]) == text_after(events, g as crate::hir::GlobalId, text_of(found0[g]))
}

proof fn lemma_counted_chain(
    counts0: Seq<usize>, found0: Seq<Option<String>>,
    counts1: Seq<usize>, found1: Seq<Option<String>>,
    counts2: Seq<usize>, found2: Seq<Option<String>>,
    a: Seq<SetEvent>, b: Seq<SetEvent>,
)
    requires
        counted(counts1, found1, counts0, found0, a),
        counted(counts2, found2, counts1, found1, b),
    ensures
        counted(counts2, found2, counts0, found0, a + b),
{
    assert forall|g: int| 0 <= g < counts2.len() implies #[trigger] counts2[g] == capped(counts0[g] + set_count(a + b, g as crate::hir::GlobalId)) by {
        lemma_sets_append(a, b, g as crate::hir::GlobalId, None);
        assert(counts1[g] == capped(counts0[g] + set_count(a, g as crate::hir::GlobalId)));
    }
    assert forall|g: int| 0 <= g < found2.len() implies #[trigger] text_of(found2[g]) == text_after(a + b, g as crate::hir::GlobalId, text_of(found0[g])) by {
        lemma_sets_append(a, b, g as crate::hir::GlobalId, text_of(found0[g]));
        assert(text_of(found1[g]) == text_after(a, g as crate::hir::GlobalId, text_of(found0[g])));
    }
}

proof fn lemma_counted_none(counts: Seq<usize>, found: Seq<Option<String>>)
    requires
        forall|g: int| 0 <= g < counts.len() ==> counts[g] <= 2,
    ensures
        counted(counts, found, counts, found, Seq::<SetEvent>::empty()),
{
}

} // verus!
verus! {

proof fn lemma_block_sets_append(a: Seq<crate::hir::Stmt>, b: Seq<crate::hir::Stmt>)
    ensures
        block_sets(a + b) == block_sets(a) + block_sets(b),
    decreases b.len(),
{
    if b.len() == 0 {
        assert(a + b =~= a);
        assert(block_sets(a) + Seq::<SetEvent>::empty() =~= block_sets(a));
    } else {
        assert((a + b).drop_last() =~= a + b.drop_last());
        assert((a + b).last() == b.last());
        lemma_block_sets_append(a, b.drop_last());
        assert(block_sets(a + b) =~= block_sets(a) + block_sets(b));
    }
}

proof fn lemma_nested_append(a: Seq<Vec<crate::hir::Stmt>>, b: Seq<Vec<crate::hir::Stmt>>)
    ensures
        nested_sets(a + b) == nested_sets(a) + nested_sets(b),
    decreases b.len(),
{
    if b.len() == 0 {
        assert(a + b =~= a);
        assert(nested_sets(a) + Seq::<SetEvent>::empty() =~= nested_sets(a));
    } else {
        assert((a + b).drop_last() =~= a + b.drop_last());
        assert((a + b).last() == b.last());
        lemma_nested_append(a, b.drop_last());
        assert(nested_sets(a + b) =~= nested_sets(a) + nested_sets(b));
    }
}

/// The stores of one statement of a body lie among those of the body.
proof fn lemma_within_statement(body: Seq<crate::hir::Stmt>, k: int, limit: int)
    requires
        0 <= k < body.len(),
        sets_within(block_sets(body), limit),
    ensures
        sets_within(own_sets(body[k]) + inner_sets(body[k]), limit),
{
    assert(body =~= body.take(k + 1) + body.skip(k + 1));
    lemma_block_sets_append(body.take(k + 1), body.skip(k + 1));
    lemma_within_append(block_sets(body.take(k + 1)), block_sets(body.skip(k + 1)), limit);
    lemma_block_step(body, k);
    lemma_within_append(block_sets(body.take(k)), own_sets(body[k]) + inner_sets(body[k]), limit);
    assert(block_sets(body.take(k)) + own_sets(body[k]) + inner_sets(body[k])
        =~= block_sets(body.take(k)) + (own_sets(body[k]) + inner_sets(body[k])));
}

/// The stores of one body of several lie among those of all of them.
proof fn lemma_within_body(blocks: Seq<Vec<crate::hir::Stmt>>, k: int, limit: int)
    requires
        0 <= k < blocks.len(),
        sets_within(nested_sets(blocks), limit),
    ensures
        sets_within(block_sets(blocks[k]@), limit),
{
    assert(blocks =~= blocks.take(k + 1) + blocks.skip(k + 1));
    lemma_nested_append(blocks.take(k + 1), blocks.skip(k + 1));
    lemma_within_append(nested_sets(blocks.take(k + 1)), nested_sets(blocks.skip(k + 1)), limit);
    lemma_nested_step(blocks, k);
    lemma_within_append(nested_sets(blocks.take(k)), block_sets(blocks[k]@), limit);
}

/// Takes in the stores of `body`: each global's count of stores, kept
/// as none, one or more, and the text of the last string literal stored
/// into it.
pub fn count_sets(body: &Vec<crate::hir::Stmt>, counts: &mut Vec<usize>, found: &mut Vec<Option<String>>)
    requires
        old(counts)@.len() == old(found)@.len(),
        old(counts)@.len() <= u32::MAX,
        sets_within(block_sets(body@), old(counts)@.len() as int),
        forall|g: int| 0 <= g < old(counts)@.len() ==> old(counts)@[g] <= 2,
    ensures
        counted(final(counts)@, final(found)@, old(counts)@, old(found)@, block_sets(body@)),
        forall|g: int| 0 <= g < final(counts)@.len() ==> final(counts)@[g] <= 2,
    decreases body,
{
    let ghost counts0 = counts@;
    let ghost found0 = found@;
    proof {
        lemma_counted_none(counts@, found@);
    }
    assert(body@.take(0) =~= Seq::<crate::hir::Stmt>::empty());
    let mut at: usize = 0;
    while at < body.len()
        invariant
            at <= body@.len(),
            counts0.len() == found0.len(),
            counts0.len() <= u32::MAX,
            sets_within(block_sets(body@), counts0.len() as int),
            counted(counts@, found@, counts0, found0, block_sets(body@.take(at as int))),
            forall|g: int| 0 <= g < counts@.len() ==> counts@[g] <= 2,
        decreases body@.len() - at,
    {
        let ghost counts1 = counts@;
        let ghost found1 = found@;
        proof {
            lemma_within_statement(body@, at as int, counts0.len() as int);
            lemma_block_step(body@, at as int);
        }
        assert(decreases_to!(*body => body[at as int]));
        count_statement(&body[at], counts, found);
        proof {
            lemma_counted_chain(counts0, found0, counts1, found1, counts@, found@,
                block_sets(body@.take(at as int)), own_sets(body@[at as int]) + inner_sets(body@[at as int]));
            assert(block_sets(body@.take(at as int)) + (own_sets(body@[at as int]) + inner_sets(body@[at as int]))
                =~= block_sets(body@.take(at + 1)));
        }
        at += 1;
    }
    assert(body@.take(body@.len() as int) =~= body@);
}

/// Takes in the stores of one statement and of the bodies under it.
fn count_statement(statement: &crate::hir::Stmt, counts: &mut Vec<usize>, found: &mut Vec<Option<String>>)
    requires
        old(counts)@.len() == old(found)@.len(),
        old(counts)@.len() <= u32::MAX,
        sets_within(own_sets(*statement) + inner_sets(*statement), old(counts)@.len() as int),
        forall|g: int| 0 <= g < old(counts)@.len() ==> old(counts)@[g] <= 2,
    ensures
        counted(final(counts)@, final(found)@, old(counts)@, old(found)@, own_sets(*statement) + inner_sets(*statement)),
        forall|g: int| 0 <= g < final(counts)@.len() ==> final(counts)@[g] <= 2,
    decreases statement,
{
    let ghost counts0 = counts@;
    let ghost found0 = found@;
    let ghost own = own_sets(*statement);
    proof {
        lemma_within_append(own, inner_sets(*statement), counts0.len() as int);
    }
    match statement {
        crate::hir::Stmt::Assign { place: Place::Global(slot), value } => {
            assert(own[0].0 == *slot);
            let g = *slot as usize;
            let now = counts[g];
            counts.set(g, if now < 2 { now + 1 } else { 2 });
            match value {
                crate::hir::Expr::Str(text) => found.set(g, Some(text.clone())),
                _ => {},
            }
            assert(own.drop_last() =~= Seq::<SetEvent>::empty());
            assert(own.last() == own[0]);
            assert forall|h: int| 0 <= h < counts@.len() implies #[trigger] counts@[h] == capped(counts0[h] + set_count(own, h as crate::hir::GlobalId)) by {
                assert(set_count(own.drop_last(), h as crate::hir::GlobalId) == 0);
            }
            assert forall|h: int| 0 <= h < found@.len() implies #[trigger] text_of(found@[h]) == text_after(own, h as crate::hir::GlobalId, text_of(found0[h])) by {
                assert(text_after(own.drop_last(), h as crate::hir::GlobalId, text_of(found0[h])) == text_of(found0[h]));
            }
        },
        crate::hir::Stmt::Range { place: Place::Global(slot), .. } => {
            assert(own[0].0 == *slot);
            let g = *slot as usize;
            counts.set(g, 2);
            assert(own.drop_last() =~= Seq::<SetEvent>::empty());
            assert(own.last() == own[0]);
            assert forall|h: int| 0 <= h < counts@.len() implies #[trigger] counts@[h] == capped(counts0[h] + set_count(own, h as crate::hir::GlobalId)) by {
                assert(set_count(own.drop_last(), h as crate::hir::GlobalId) == 0);
            }
            assert forall|h: int| 0 <= h < found@.len() implies #[trigger] text_of(found@[h]) == text_after(own, h as crate::hir::GlobalId, text_of(found0[h])) by {
                assert(text_after(own.drop_last(), h as crate::hir::GlobalId, text_of(found0[h])) == text_of(found0[h]));
            }
        },
        _ => {
            assert(own =~= Seq::<SetEvent>::empty());
            proof {
                lemma_counted_none(counts@, found@);
            }
        },
    }
    assert(counted(counts@, found@, counts0, found0, own));
    let ghost counts1 = counts@;
    let ghost found1 = found@;
    let inner = blocks(statement);
    proof {
        lemma_inner_nested(*statement);
        lemma_counted_none(counts@, found@);
    }
    let ghost listed = blocks_of(*statement);
    assert(listed.take(0) =~= Seq::<Vec<crate::hir::Stmt>>::empty());
    let mut k: usize = 0;
    while k < inner.len()
        invariant
            k <= inner@.len(),
            bodies(inner@) == listed,
            listed == blocks_of(*statement),
            counts1.len() == found1.len(),
            counts1.len() == counts0.len(),
            counts0.len() <= u32::MAX,
            sets_within(nested_sets(listed), counts0.len() as int),
            counted(counts@, found@, counts1, found1, nested_sets(listed.take(k as int))),
            forall|g: int| 0 <= g < counts@.len() ==> counts@[g] <= 2,
        decreases inner@.len() - k,
    {
        let ghost counts2 = counts@;
        let ghost found2 = found@;
        proof {
            assert(*inner@[k as int] == listed[k as int]);
            lemma_blocks_smaller(*statement, k as int);
            lemma_within_body(listed, k as int, counts0.len() as int);
            lemma_nested_step(listed, k as int);
        }
        count_sets(inner[k], counts, found);
        proof {
            lemma_counted_chain(counts1, found1, counts2, found2, counts@, found@,
                nested_sets(listed.take(k as int)), block_sets(listed[k as int]@));
        }
        k += 1;
    }
    proof {
        assert(listed.take(listed.len() as int) =~= listed);
        lemma_counted_chain(counts0, found0, counts1, found1, counts@, found@, own, inner_sets(*statement));
    }
}

} // verus!
verus! {

pub open spec fn module_inits(program: crate::hir::Program) -> Seq<Vec<crate::hir::Stmt>> {
    Seq::new(program.modules@.len(), |i: int| program.modules@[i].init)
}

pub open spec fn function_bodies(program: crate::hir::Program) -> Seq<Vec<crate::hir::Stmt>> {
    Seq::new(program.functions@.len(), |i: int| program.functions@[i].body)
}

/// Takes in the stores of several bodies one after another.
fn count_all(listed: &Vec<&Vec<crate::hir::Stmt>>, counts: &mut Vec<usize>, found: &mut Vec<Option<String>>)
    requires
        old(counts)@.len() == old(found)@.len(),
        old(counts)@.len() <= u32::MAX,
        sets_within(nested_sets(bodies(listed@)), old(counts)@.len() as int),
        forall|g: int| 0 <= g < old(counts)@.len() ==> old(counts)@[g] <= 2,
    ensures
        counted(final(counts)@, final(found)@, old(counts)@, old(found)@, nested_sets(bodies(listed@))),
        forall|g: int| 0 <= g < final(counts)@.len() ==> final(counts)@[g] <= 2,
{
    let ghost counts0 = counts@;
    let ghost found0 = found@;
    let ghost all = bodies(listed@);
    proof {
        lemma_counted_none(counts@, found@);
    }
    assert(all.take(0) =~= Seq::<Vec<crate::hir::Stmt>>::empty());
    let mut k: usize = 0;
    while k < listed.len()
        invariant
            k <= listed@.len(),
            all == bodies(listed@),
            counts0.len() == found0.len(),
            counts0.len() <= u32::MAX,
            sets_within(nested_sets(all), counts0.len() as int),
            counted(counts@, found@, counts0, found0, nested_sets(all.take(k as int))),
            forall|g: int| 0 <= g < counts@.len() ==> counts@[g] <= 2,
        decreases listed@.len() - k,
    {
        let ghost counts1 = counts@;
        let ghost found1 = found@;
        proof {
            assert(*listed@[k as int] == all[k as int]);
            lemma_within_body(all, k as int, counts0.len() as int);
            lemma_nested_step(all, k as int);
        }
        count_sets(listed[k], counts, found);
        proof {
            lemma_counted_chain(counts0, found0, counts1, found1, counts@, found@,
                nested_sets(all.take(k as int)), block_sets(all[k as int]@));
        }
        k += 1;
    }
    assert(all.take(all.len() as int) =~= all);
}

/// The text constants of a program: for each global, the string it holds
/// when it is stored into exactly once in the whole program, and by a
/// string literal; `None` for every other global.
pub fn constants_of(program: &crate::hir::Program) -> (found: Vec<Option<String>>)
    requires
        sets_within(program_sets(*program), program.globals as int),
    ensures
        found@.len() == program.globals,
        forall|g: int| 0 <= g < program.globals ==> #[trigger] text_of(found@[g]) == constants_spec(*program, g as crate::hir::GlobalId),
{
    let size = program.globals as usize;
    let mut counts: Vec<usize> = Vec::new();
    let mut texts: Vec<Option<String>> = Vec::new();
    while counts.len() < size
        invariant
            counts@.len() == texts@.len(),
            counts@.len() <= size,
            forall|g: int| 0 <= g < counts@.len() ==> counts@[g] == 0,
            forall|g: int| 0 <= g < texts@.len() ==> texts@[g] is None,
        decreases size - counts@.len(),
    {
        counts.push(0);
        texts.push(None);
    }
    let ghost counts0 = counts@;
    let ghost texts0 = texts@;
    let mut inits: Vec<&Vec<crate::hir::Stmt>> = Vec::new();
    let mut at: usize = 0;
    while at < program.modules.len()
        invariant
            at <= program.modules@.len(),
            inits@.len() == at,
            forall|i: int| 0 <= i < at ==> *inits@[i] == program.modules@[i].init,
        decreases program.modules@.len() - at,
    {
        inits.push(&program.modules[at].init);
        at += 1;
    }
    let mut functions: Vec<&Vec<crate::hir::Stmt>> = Vec::new();
    let mut at: usize = 0;
    while at < program.functions.len()
        invariant
            at <= program.functions@.len(),
            functions@.len() == at,
            forall|i: int| 0 <= i < at ==> *functions@[i] == program.functions@[i].body,
        decreases program.functions@.len() - at,
    {
        functions.push(&program.functions[at].body);
        at += 1;
    }
    proof {
        assert(bodies(inits@) =~= module_inits(*program));
        assert(bodies(functions@) =~= function_bodies(*program));
        lemma_within_append(nested_sets(module_inits(*program)), nested_sets(function_bodies(*program)), size as int);
    }
    count_all(&inits, &mut counts, &mut texts);
    let ghost counts1 = counts@;
    let ghost texts1 = texts@;
    count_all(&functions, &mut counts, &mut texts);
    proof {
        lemma_counted_chain(counts0, texts0, counts1, texts1, counts@, texts@,
            nested_sets(module_inits(*program)), nested_sets(function_bodies(*program)));
    }
    let mut found: Vec<Option<String>> = Vec::new();
    let mut g: usize = 0;
    while g < size
        invariant
            g <= size,
            size == program.globals,
            counts@.len() == size,
            texts@.len() == size,
            counted(counts@, texts@, counts0, texts0, program_sets(*program)),
            forall|h: int| 0 <= h < size ==> counts0[h] == 0 && texts0[h] is None,
            found@.len() == g,
            forall|h: int| 0 <= h < g ==> #[trigger] text_of(found@[h]) == constants_spec(*program, h as crate::hir::GlobalId),
        decreases size - g,
    {
        assert(counts@[g as int] == capped(counts0[g as int] + set_count(program_sets(*program), g as crate::hir::GlobalId)));
        assert(text_of(texts@[g as int]) == text_after(program_sets(*program), g as crate::hir::GlobalId, text_of(texts0[g as int])));
        let text = if counts[g] == 1 {
            match &texts[g] {
                Some(held) => Some(held.clone()),
                None => None,
            }
        } else {
            None
        };
        found.push(text);
        g += 1;
    }
    found
}

} // verus!
verus! {

/// The type at `index`, or unknown where there is none.
pub open spec fn ty_at(found: Seq<Ty>, index: int) -> Ty {
    if 0 <= index < found.len() {
        found[index]
    } else {
        Ty::Any
    }
}

/// The type of a place as the inference left it; a place it holds no
/// type for is unknown.
pub open spec fn place_type(t: Types, function: Option<FuncId>, place: Place) -> Ty {
    match place {
        Place::Global(slot) => ty_at(t.globals@, slot as int),
        Place::Local(slot) => match function {
            Some(id) => if (id as int) < t.locals@.len() {
                ty_at(t.locals@[id as int]@, slot as int)
            } else {
                Ty::Any
            },
            None => Ty::Any,
        },
    }
}

/// The functions that define the noun `field`: those of its first entry.
pub open spec fn noun_candidates(nouns: Seq<(Symbol, Vec<FuncId>)>, field: Symbol) -> Option<Seq<FuncId>>
    decreases nouns.len(),
{
    if nouns.len() == 0 {
        None
    } else if nouns[0].0 == field {
        Some(nouns[0].1@)
    } else {
        noun_candidates(nouns.drop_first(), field)
    }
}

/// The join of what the functions `ids` return.
pub open spec fn joined_returns(results: Seq<Ty>, ids: Seq<FuncId>) -> Ty
    decreases ids.len(),
{
    if ids.len() == 0 {
        Ty::Never
    } else {
        ty_join(joined_returns(results, ids.drop_last()), ty_at(results, ids.last() as int))
    }
}

/// The type of field `field` of a value of type `held`: `자료형` is text,
/// `길이` of a table or text is an integer, `명칭` of a table is a table;
/// a noun defined for numbers and truth values gives what its functions
/// return; anything else is unknown.
pub open spec fn field_type(t: Types, field: Symbol, held: Ty) -> Ty {
    if t.fields.kind == Some(field) {
        Ty::Str
    } else if t.fields.length == Some(field) && (held == Ty::Table || held == Ty::Str) {
        Ty::Int
    } else if t.fields.names == Some(field) && held == Ty::Table {
        Ty::Table
    } else if noun_candidates(t.nouns@, field) is Some && (held == Ty::Int || held == Ty::Float || held == Ty::Bool) {
        joined_returns(t.returns@, noun_candidates(t.nouns@, field)->0)
    } else {
        Ty::Any
    }
}

/// The type a conversion names: `정수` and `수` integers, `실수` reals,
/// `문자열` text, `논리값` truth values; anything else is unknown.
pub open spec fn kind_type(kind: Option<Seq<char>>) -> Ty {
    match kind {
        Some(text) => if text == "정수"@ || text == "수"@ {
            Ty::Int
        } else if text == "실수"@ {
            Ty::Float
        } else if text == "문자열"@ {
            Ty::Str
        } else if text == "논리값"@ {
            Ty::Bool
        } else {
            Ty::Any
        },
        None => Ty::Any,
    }
}

/// The kind a conversion is asked for by its second argument: written out,
/// or held by a global that keeps one text.
pub open spec fn kind_named(t: Types, args: Seq<crate::hir::Expr>) -> Option<Seq<char>> {
    if args.len() < 2 {
        None
    } else {
        match args[1] {
            crate::hir::Expr::Str(text) => Some(text@),
            crate::hir::Expr::Global(slot) => if (slot as int) < t.constants@.len() {
                text_of(t.constants@[slot as int])
            } else {
                None
            },
            _ => None,
        }
    }
}

/// What a built-in gives, from the types of its first two arguments.
/// Printing, stopping and `없음` give nothing; comparisons and truth
/// tests give truth values; reading, opening and writing may fail and so
/// give an unknown; adding text gives text; division gives a real. The
/// table gives no type for the other built-ins: they are unknown.
pub open spec fn op_type(op: crate::builtins::Builtin, first: Ty, second: Ty, kind: Option<Seq<char>>) -> Ty {
    match op {
        crate::builtins::Builtin::Print => Ty::Nothing,
        crate::builtins::Builtin::Stop => Ty::Nothing,
        crate::builtins::Builtin::Nothing => Ty::Nothing,
        crate::builtins::Builtin::Greater => Ty::Bool,
        crate::builtins::Builtin::Less => Ty::Bool,
        crate::builtins::Builtin::Equal => Ty::Bool,
        crate::builtins::Builtin::Truthy => Ty::Bool,
        crate::builtins::Builtin::Convert => kind_type(kind),
        crate::builtins::Builtin::Add => if first == Ty::Str { Ty::Str } else { ty_arithmetic(first, second) },
        crate::builtins::Builtin::AddCopy => if first == Ty::Str { Ty::Str } else { ty_arithmetic(first, second) },
        crate::builtins::Builtin::Sub => ty_arithmetic(first, second),
        crate::builtins::Builtin::Mul => ty_arithmetic(first, second),
        crate::builtins::Builtin::Rem => ty_arithmetic(first, second),
        crate::builtins::Builtin::Div => Ty::Float,
        _ => Ty::Any,
    }
}

/// The type of an expression, from the types the inference found.
pub open spec fn type_of(t: Types, function: Option<FuncId>, expr: crate::hir::Expr) -> Ty
    decreases expr,
{
    match expr {
        crate::hir::Expr::Int(_) => Ty::Int,
        crate::hir::Expr::Float(_) => Ty::Float,
        crate::hir::Expr::Str(_) => Ty::Str,
        crate::hir::Expr::Bool(_) => Ty::Bool,
        crate::hir::Expr::Nothing => Ty::Nothing,
        crate::hir::Expr::Local(slot) => place_type(t, function, Place::Local(slot)),
        crate::hir::Expr::Global(slot) => place_type(t, function, Place::Global(slot)),
        crate::hir::Expr::Table(_, _) => Ty::Table,
        crate::hir::Expr::Template(_) => Ty::Str,
        crate::hir::Expr::Field { owner, field, .. } => field_type(t, field, type_of(t, function, *owner)),
        crate::hir::Expr::Index { .. } => Ty::Any,
        crate::hir::Expr::Pick { .. } => Ty::Any,
        crate::hir::Expr::Call { callee, args, .. } => match callee {
            crate::hir::Callee::User(id) => ty_at(t.returns@, id as int),
            crate::hir::Callee::Op(op) => {
                let first = if args@.len() > 0 { type_of(t, function, args@[0]) } else { Ty::Never };
                let second = if args@.len() > 1 { type_of(t, function, args@[1]) } else { Ty::Never };
                op_type(op, first, second, kind_named(t, args@))
            },
        },
        crate::hir::Expr::Not(_) => Ty::Bool,
        crate::hir::Expr::Ask { .. } => Ty::Bool,
        crate::hir::Expr::And(_, _) => Ty::Bool,
        crate::hir::Expr::Or(_, _) => Ty::Bool,
    }
}

fn is_symbol(slot: Option<Symbol>, field: Symbol) -> (found: bool)
    ensures
        found == (slot == Some(field)),
{
    match slot {
        Some(held) => held == field,
        None => false,
    }
}

fn ty_get(found: &Vec<Ty>, index: u32) -> (ty: Ty)
    ensures
        ty == ty_at(found@, index as int),
{
    if (index as usize) < found.len() {
        found[index as usize]
    } else {
        Ty::Any
    }
}

impl Types {
    /// The type of a place; one the inference holds no type for is unknown.
    pub fn place_or_any(&self, function: Option<FuncId>, place: Place) -> (found: Ty)
        ensures
            found == place_type(*self, function, place),
    {
        match place {
            Place::Global(slot) => ty_get(&self.globals, slot),
            Place::Local(slot) => match function {
                Some(id) => if (id as usize) < self.locals.len() {
                    ty_get(&self.locals[id as usize], slot)
                } else {
                    Ty::Any
                },
                None => Ty::Any,
            },
        }
    }

    /// The type of field `field` of a value of type `held`.
    pub fn field(&self, field: Symbol, held: Ty) -> (found: Ty)
        ensures
            found == field_type(*self, field, held),
    {
        if is_symbol(self.fields.kind, field) {
            return Ty::Str;
        }
        if is_symbol(self.fields.length, field) && (held == Ty::Table || held == Ty::Str) {
            return Ty::Int;
        }
        if is_symbol(self.fields.names, field) && held == Ty::Table {
            return Ty::Table;
        }
        if !(held == Ty::Int || held == Ty::Float || held == Ty::Bool) {
            return Ty::Any;
        }
        let mut i: usize = 0;
        assert(self.nouns@.skip(0) =~= self.nouns@);
        while i < self.nouns.len()
            invariant
                i <= self.nouns@.len(),
                noun_candidates(self.nouns@, field) == noun_candidates(self.nouns@.skip(i as int), field),
                field_type(*self, field, held) == match noun_candidates(self.nouns@, field) {
                    Some(ids) => joined_returns(self.returns@, ids),
                    None => Ty::Any,
                },
            decreases self.nouns@.len() - i,
        {
            assert(self.nouns@.skip(i as int).drop_first() =~= self.nouns@.skip(i + 1));
            assert(self.nouns@.skip(i as int)[0] == self.nouns@[i as int]);
            if self.nouns[i].0 == field {
                let ids = &self.nouns[i].1;
                assert(noun_candidates(self.nouns@, field) == Some(ids@));
                let mut joined = Ty::Never;
                let mut k: usize = 0;
                while k < ids.len()
                    invariant
                        k <= ids@.len(),
                        joined == joined_returns(self.returns@, ids@.take(k as int)),
                        noun_candidates(self.nouns@, field) == Some(ids@),
                        field_type(*self, field, held) == joined_returns(self.returns@, ids@),
                    decreases ids@.len() - k,
                {
                    assert(ids@.take(k + 1).drop_last() =~= ids@.take(k as int));
                    joined = joined.join(ty_get(&self.returns, ids[k]));
                    k += 1;
                }
                assert(ids@.take(ids@.len() as int) =~= ids@);
                assert(noun_candidates(self.nouns@, field) == Some(ids@));
                return joined;
            }
            i += 1;
        }
        Ty::Any
    }

    /// The type of `expr` in `function` (none for a module's own code).
    pub fn of(&self, function: Option<FuncId>, expr: &crate::hir::Expr) -> (found: Ty)
        ensures
            found == type_of(*self, function, *expr),
        decreases expr,
    {
        match expr {
            crate::hir::Expr::Int(_) => Ty::Int,
            crate::hir::Expr::Float(_) => Ty::Float,
            crate::hir::Expr::Str(_) => Ty::Str,
            crate::hir::Expr::Bool(_) => Ty::Bool,
            crate::hir::Expr::Nothing => Ty::Nothing,
            crate::hir::Expr::Local(slot) => self.place_or_any(function, Place::Local(*slot)),
            crate::hir::Expr::Global(slot) => self.place_or_any(function, Place::Global(*slot)),
            crate::hir::Expr::Table(_, _) => Ty::Table,
            crate::hir::Expr::Template(_) => Ty::Str,
            crate::hir::Expr::Field { owner, field, .. } => {
                let held = self.of(function, owner);
                self.field(*field, held)
            },
            crate::hir::Expr::Index { .. } => Ty::Any,
            crate::hir::Expr::Pick { .. } => Ty::Any,
            crate::hir::Expr::Call { callee, args, .. } => match callee {
                crate::hir::Callee::User(id) => ty_get(&self.returns, *id),
                crate::hir::Callee::Op(op) => {
                    let first = if args.len() > 0 {
                        proof {
                            assert(decreases_to!(args => args@[0]));
                        }
                        self.of(function, &args[0])
                    } else {
                        Ty::Never
                    };
                    let second = if args.len() > 1 {
                        proof {
                            assert(decreases_to!(args => args@[1]));
                        }
                        self.of(function, &args[1])
                    } else {
                        Ty::Never
                    };
                    let kind = self.kind_named(args);
                    op_ty(*op, first, second, kind)
                },
            },
            crate::hir::Expr::Not(_) => Ty::Bool,
            crate::hir::Expr::Ask { .. } => Ty::Bool,
            crate::hir::Expr::And(_, _) => Ty::Bool,
            crate::hir::Expr::Or(_, _) => Ty::Bool,
        }
    }

    /// The kind a conversion is asked for, as its type.
    fn kind_named(&self, args: &Vec<crate::hir::Expr>) -> (found: Ty)
        ensures
            found == kind_type(kind_named(*self, args@)),
    {
        if args.len() < 2 {
            return Ty::Any;
        }
        match &args[1] {
            crate::hir::Expr::Str(text) => kind_of(text.as_str()),
            crate::hir::Expr::Global(slot) => if (*slot as usize) < self.constants.len() {
                match &self.constants[*slot as usize] {
                    Some(text) => kind_of(text.as_str()),
                    None => Ty::Any,
                }
            } else {
                Ty::Any
            },
            _ => Ty::Any,
        }
    }
}

fn kind_of(text: &str) -> (found: Ty)
    ensures
        found == kind_type(Some(text@)),
{
    if crate::chars::same_text(text, "정수") || crate::chars::same_text(text, "수") {
        Ty::Int
    } else if crate::chars::same_text(text, "실수") {
        Ty::Float
    } else if crate::chars::same_text(text, "문자열") {
        Ty::Str
    } else if crate::chars::same_text(text, "논리값") {
        Ty::Bool
    } else {
        Ty::Any
    }
}

fn op_ty(op: crate::builtins::Builtin, first: Ty, second: Ty, kind: Ty) -> (found: Ty)
    ensures
        forall|named: Option<Seq<char>>| kind == kind_type(named) ==> found == op_type(op, first, second, named),
{
    match op {
        crate::builtins::Builtin::Print => Ty::Nothing,
        crate::builtins::Builtin::Stop => Ty::Nothing,
        crate::builtins::Builtin::Nothing => Ty::Nothing,
        crate::builtins::Builtin::Greater => Ty::Bool,
        crate::builtins::Builtin::Less => Ty::Bool,
        crate::builtins::Builtin::Equal => Ty::Bool,
        crate::builtins::Builtin::Truthy => Ty::Bool,
        crate::builtins::Builtin::Convert => kind,
        crate::builtins::Builtin::Add => if first == Ty::Str { Ty::Str } else { arithmetic(first, second) },
        crate::builtins::Builtin::AddCopy => if first == Ty::Str { Ty::Str } else { arithmetic(first, second) },
        crate::builtins::Builtin::Sub => arithmetic(first, second),
        crate::builtins::Builtin::Mul => arithmetic(first, second),
        crate::builtins::Builtin::Rem => arithmetic(first, second),
        crate::builtins::Builtin::Div => Ty::Float,
        _ => Ty::Any,
    }
}

} // verus!
verus! {

/// How high a type stands in the lattice: nothing below, known types in
/// the middle, the unknown on top.
pub open spec fn height(ty: Ty) -> nat {
    if ty == Ty::Never {
        0
    } else if ty == Ty::Any {
        2
    } else {
        1
    }
}

/// How far the types of `found` can still rise.
pub open spec fn seq_room(found: Seq<Ty>) -> nat
    decreases found.len(),
{
    if found.len() == 0 {
        0
    } else {
        seq_room(found.drop_last()) + (2 - height(found.last())) as nat
    }
}

/// How far the types of each list can still rise.
pub open spec fn nested_room(found: Seq<Vec<Ty>>) -> nat
    decreases found.len(),
{
    if found.len() == 0 {
        0
    } else {
        nested_room(found.drop_last()) + seq_room(found.last()@)
    }
}

/// How far the inference can still raise any type.
pub open spec fn room(t: Types) -> nat {
    seq_room(t.globals@) + nested_room(t.locals@) + seq_room(t.returns@)
}

proof fn lemma_join_height(a: Ty, f: Ty)
    ensures
        height(ty_join(a, f)) >= height(a),
        ty_join(a, f) != a ==> height(ty_join(a, f)) > height(a),
        ty_le(a, ty_join(a, f)),
{
}

proof fn lemma_seq_room_update(found: Seq<Ty>, i: int, ty: Ty)
    requires
        0 <= i < found.len(),
        height(ty) >= height(found[i]),
    ensures
        seq_room(found.update(i, ty)) + (height(ty) - height(found[i])) == seq_room(found),
    decreases found.len(),
{
    if i < found.len() - 1 {
        assert(found.update(i, ty).drop_last() =~= found.drop_last().update(i, ty));
        lemma_seq_room_update(found.drop_last(), i, ty);
    } else {
        assert(found.update(i, ty).drop_last() =~= found.drop_last());
    }
}

proof fn lemma_nested_room_update(found: Seq<Vec<Ty>>, i: int, inner: Vec<Ty>)
    requires
        0 <= i < found.len(),
        seq_room(inner@) <= seq_room(found[i]@),
    ensures
        nested_room(found.update(i, inner)) + seq_room(found[i]@) - seq_room(inner@) == nested_room(found),
    decreases found.len(),
{
    if i < found.len() - 1 {
        assert(found.update(i, inner).drop_last() =~= found.drop_last().update(i, inner));
        lemma_nested_room_update(found.drop_last(), i, inner);
    } else {
        assert(found.update(i, inner).drop_last() =~= found.drop_last());
    }
}

/// The inference's types only rise: every list keeps its length, and each
/// type stays below what it becomes.
pub open spec fn rose(before: Types, after: Types) -> bool {
    &&& after.fields == before.fields
    &&& after.nouns == before.nouns
    &&& after.constants == before.constants
    &&& after.globals@.len() == before.globals@.len()
    &&& after.returns@.len() == before.returns@.len()
    &&& after.locals@.len() == before.locals@.len()
    &&& room(after) <= room(before)
}

/// Raises entry `index` of `found`, when there is one, to take `ty` in.
fn raise_in(found: &mut Vec<Ty>, index: u32, ty: Ty, moved: &mut bool)
    ensures
        final(found)@.len() == old(found)@.len(),
        seq_room(final(found)@) <= seq_room(old(found)@),
        *final(moved) ==> *old(moved) || seq_room(final(found)@) < seq_room(old(found)@),
        *old(moved) ==> *final(moved),
        !*final(moved) ==> *final(found) == *old(found),
        (index as int) < old(found)@.len() && !*final(moved) ==> ty_le(ty, old(found)@[index as int]),
{
    if (index as usize) < found.len() {
        let held = found[index as usize];
        let joined = held.join(ty);
        proof {
            lemma_join_height(held, ty);
        }
        if joined != held {
            proof {
                lemma_seq_room_update(found@, index as int, joined);
            }
            found.set(index as usize, joined);
            *moved = true;
        }
    }
}

} // verus!
verus! {

/// A type held by local `slot` of function `id`, when there is one, is at
/// least `ty`.
pub open spec fn local_holds(t: Types, id: FuncId, slot: crate::hir::LocalId, ty: Ty) -> bool {
    (id as int) < t.locals@.len() && (slot as int) < t.locals@[id as int]@.len() ==> ty_le(
        ty,
        t.locals@[id as int]@[slot as int],
    )
}

/// A place, where the types hold one for it, has a type at least `ty`.
pub open spec fn place_holds(t: Types, function: Option<FuncId>, place: Place, ty: Ty) -> bool {
    match place {
        Place::Global(slot) => (slot as int) < t.globals@.len() ==> ty_le(ty, t.globals@[slot as int]),
        Place::Local(slot) => match function {
            Some(id) => local_holds(t, id, slot, ty),
            None => true,
        },
    }
}

/// The first parameter of each function that defines noun `field` takes
/// a value of type `held`.
pub open spec fn nouns_hold(t: Types, program: crate::hir::Program, field: Symbol, held: Ty) -> bool {
    match noun_candidates(t.nouns@, field) {
        Some(ids) => forall|k: int|
            0 <= k < ids.len() && (#[trigger] ids[k] as int) < program.functions@.len()
                && program.functions@[ids[k] as int].params@.len() > 0 ==> local_holds(
                t,
                ids[k],
                program.functions@[ids[k] as int].params@[0],
                held,
            ),
        None => true,
    }
}

/// The parameters of function `id` take the types of the arguments given
/// to them, in order.
pub open spec fn params_hold(t: Types, program: crate::hir::Program, function: Option<FuncId>, id: FuncId, args: Seq<crate::hir::Expr>) -> bool {
    (id as int) < program.functions@.len() ==> forall|k: int|
        0 <= k < args.len() && k < program.functions@[id as int].params@.len() ==> local_holds(
            t,
            id,
            #[trigger] program.functions@[id as int].params@[k],
            type_of(t, function, args[k]),
        )
}

/// Every place an expression gives values to can hold them: the first
/// parameter of a noun's functions takes the owner, and a function's
/// parameters take its arguments.
pub open spec fn expr_settled(t: Types, program: crate::hir::Program, function: Option<FuncId>, expr: crate::hir::Expr) -> bool
    decreases expr, 0nat,
{
    match expr {
        crate::hir::Expr::Template(items) => exprs_settled(t, program, function, items@),
        crate::hir::Expr::Table(items, entries) => exprs_settled(t, program, function, items@)
            && entries_settled(t, program, function, entries@),
        crate::hir::Expr::Field { owner, field, .. } => expr_settled(t, program, function, *owner)
            && nouns_hold(t, program, field, type_of(t, function, *owner)),
        crate::hir::Expr::Index { owner, place, .. } => expr_settled(t, program, function, *owner)
            && expr_settled(t, program, function, *place),
        crate::hir::Expr::Pick { owner, key, .. } => expr_settled(t, program, function, *owner)
            && expr_settled(t, program, function, *key),
        crate::hir::Expr::Not(inner) => expr_settled(t, program, function, *inner),
        crate::hir::Expr::Ask { value, .. } => expr_settled(t, program, function, *value),
        crate::hir::Expr::And(left, right) => expr_settled(t, program, function, *left)
            && expr_settled(t, program, function, *right),
        crate::hir::Expr::Or(left, right) => expr_settled(t, program, function, *left)
            && expr_settled(t, program, function, *right),
        crate::hir::Expr::Call { callee, args, .. } => exprs_settled(t, program, function, args@) && (match callee {
            crate::hir::Callee::User(id) => params_hold(t, program, function, id, args@),
            crate::hir::Callee::Op(_) => true,
        }),
        _ => true,
    }
}

pub open spec fn exprs_settled(t: Types, program: crate::hir::Program, function: Option<FuncId>, items: Seq<crate::hir::Expr>) -> bool
    decreases items, 1nat,
{
    if items.len() == 0 {
        true
    } else {
        exprs_settled(t, program, function, items.drop_last()) && expr_settled(t, program, function, items.last())
    }
}

pub open spec fn entries_settled(t: Types, program: crate::hir::Program, function: Option<FuncId>, entries: Seq<(Symbol, crate::hir::Expr)>) -> bool
    decreases entries, 1nat,
{
    if entries.len() == 0 {
        true
    } else {
        entries_settled(t, program, function, entries.drop_last()) && expr_settled(t, program, function, entries.last().1)
    }
}

/// The type a counted loop's counter takes from its bounds: integers stay
/// integers, other numbers make reals, anything else is unknown.
pub open spec fn counter_type(found: Ty) -> Ty {
    if found == Ty::Int {
        Ty::Int
    } else if ty_number(found) {
        Ty::Float
    } else {
        Ty::Any
    }
}

/// Every place a statement gives a value to can hold it: an assigned
/// place its value, an `마다` place anything, a counter what its bounds
/// make, and a function's result what it returns.
pub open spec fn stmt_settled(t: Types, program: crate::hir::Program, function: Option<FuncId>, statement: crate::hir::Stmt) -> bool
    decreases statement, 0nat,
{
    match statement {
        crate::hir::Stmt::Assign { place, value } => place_holds(t, function, place, type_of(t, function, value))
            && expr_settled(t, program, function, value),
        crate::hir::Stmt::SetField { owner, value, .. } => expr_settled(t, program, function, owner)
            && expr_settled(t, program, function, value),
        crate::hir::Stmt::SetAt { owner, place, value, .. } => expr_settled(t, program, function, owner)
            && expr_settled(t, program, function, place) && expr_settled(t, program, function, value),
        crate::hir::Stmt::SetPick { owner, key, value, .. } => expr_settled(t, program, function, owner)
            && expr_settled(t, program, function, key) && expr_settled(t, program, function, value),
        crate::hir::Stmt::Each { place, over, body, .. } => place_holds(t, function, place, Ty::Any)
            && expr_settled(t, program, function, over) && body_settled(t, program, function, body@),
        crate::hir::Stmt::Eval(value) => expr_settled(t, program, function, value),
        crate::hir::Stmt::If { branches, otherwise } => branches_settled(t, program, function, branches@)
            && (match otherwise {
            Some(body) => body_settled(t, program, function, body@),
            None => true,
        }),
        crate::hir::Stmt::Range { place, start, stop, step, body, .. } => {
            let bound = ty_join(type_of(t, function, start), type_of(t, function, stop));
            let found = match step {
                Some(by) => ty_join(bound, type_of(t, function, by)),
                None => bound,
            };
            &&& place_holds(t, function, place, counter_type(found))
            &&& expr_settled(t, program, function, start)
            &&& expr_settled(t, program, function, stop)
            &&& match step {
                Some(by) => expr_settled(t, program, function, by),
                None => true,
            }
            &&& body_settled(t, program, function, body@)
        },
        crate::hir::Stmt::While { test, body } => expr_settled(t, program, function, test)
            && body_settled(t, program, function, body@),
        crate::hir::Stmt::Return { value, .. } => (match function {
            Some(id) => (id as int) < t.returns@.len() ==> ty_le(type_of(t, function, value), t.returns@[id as int]),
            None => true,
        }) && expr_settled(t, program, function, value),
        _ => true,
    }
}

pub open spec fn body_settled(t: Types, program: crate::hir::Program, function: Option<FuncId>, body: Seq<crate::hir::Stmt>) -> bool
    decreases body, 1nat,
{
    if body.len() == 0 {
        true
    } else {
        body_settled(t, program, function, body.drop_last()) && stmt_settled(t, program, function, body.last())
    }
}

pub open spec fn branches_settled(t: Types, program: crate::hir::Program, function: Option<FuncId>, branches: Seq<(crate::hir::Expr, Vec<crate::hir::Stmt>)>) -> bool
    decreases branches, 1nat,
{
    if branches.len() == 0 {
        true
    } else {
        branches_settled(t, program, function, branches.drop_last()) && expr_settled(t, program, function, branches.last().0)
            && body_settled(t, program, function, branches.last().1@)
    }
}

} // verus!
verus! {

/// Steps one after another make a step.
proof fn lemma_stepped_chain(a: Types, b: Types, c: Types, was: bool, mid: bool, moved: bool)
    requires
        stepped(a, b, was, mid),
        stepped(b, c, mid, moved),
    ensures
        stepped(a, c, was, moved),
{
}

fn copy_tys(found: &Vec<Ty>) -> (made: Vec<Ty>)
    ensures
        made@ == found@,
{
    let mut made: Vec<Ty> = Vec::new();
    let mut i: usize = 0;
    while i < found.len()
        invariant
            i <= found@.len(),
            made@ == found@.take(i as int),
        decreases found@.len() - i,
    {
        made.push(found[i]);
        assert(made@ =~= found@.take(i + 1));
        i += 1;
    }
    assert(found@.take(found@.len() as int) =~= found@);
    made
}

fn copy_ids(found: &Vec<FuncId>) -> (made: Vec<FuncId>)
    ensures
        made@ == found@,
{
    let mut made: Vec<FuncId> = Vec::new();
    let mut i: usize = 0;
    while i < found.len()
        invariant
            i <= found@.len(),
            made@ == found@.take(i as int),
        decreases found@.len() - i,
    {
        made.push(found[i]);
        assert(made@ =~= found@.take(i + 1));
        i += 1;
    }
    assert(found@.take(found@.len() as int) =~= found@);
    made
}

/// What the inference does to its types in one step: they only rise, a
/// step that moves nothing leaves them as they were, and one that moves
/// something leaves less room.
pub open spec fn stepped(before: Types, after: Types, was: bool, moved: bool) -> bool {
    &&& rose(before, after)
    &&& was ==> moved
    &&& moved ==> was || room(after) < room(before)
    &&& !moved ==> after == before
}

/// Raises local `slot` of function `id`, where there is one, to take `ty` in.
fn raise_local(types: &mut Types, id: FuncId, slot: crate::hir::LocalId, ty: Ty, moved: &mut bool)
    ensures
        stepped(*old(types), *final(types), *old(moved), *final(moved)),
        !*final(moved) ==> local_holds(*old(types), id, slot, ty),
{
    if (id as usize) < types.locals.len() && (slot as usize) < types.locals[id as usize].len() {
        let held = types.locals[id as usize][slot as usize];
        let joined = held.join(ty);
        proof {
            lemma_join_height(held, ty);
        }
        if joined != held {
            let ghost before = *types;
            let mut inner = copy_tys(&types.locals[id as usize]);
            proof {
                lemma_seq_room_update(inner@, slot as int, joined);
            }
            inner.set(slot as usize, joined);
            proof {
                lemma_nested_room_update(types.locals@, id as int, inner);
            }
            types.locals.set(id as usize, inner);
            *moved = true;
        }
    }
}

/// Raises the type of `place` to take `ty` in.
fn assign(types: &mut Types, function: Option<FuncId>, place: Place, ty: Ty, moved: &mut bool)
    ensures
        stepped(*old(types), *final(types), *old(moved), *final(moved)),
        !*final(moved) ==> place_holds(*old(types), function, place, ty),
{
    match place {
        Place::Global(slot) => raise_in(&mut types.globals, slot, ty, moved),
        Place::Local(slot) => match function {
            Some(id) => raise_local(types, id, slot, ty, moved),
            None => {},
        },
    }
}

/// The functions that define noun `field`.
fn candidates(types: &Types, field: Symbol) -> (found: Vec<FuncId>)
    ensures
        found@ == match noun_candidates(types.nouns@, field) {
            Some(ids) => ids,
            None => Seq::<FuncId>::empty(),
        },
{
    let mut i: usize = 0;
    assert(types.nouns@.skip(0) =~= types.nouns@);
    while i < types.nouns.len()
        invariant
            i <= types.nouns@.len(),
            noun_candidates(types.nouns@, field) == noun_candidates(types.nouns@.skip(i as int), field),
        decreases types.nouns@.len() - i,
    {
        assert(types.nouns@.skip(i as int).drop_first() =~= types.nouns@.skip(i + 1));
        assert(types.nouns@.skip(i as int)[0] == types.nouns@[i as int]);
        if types.nouns[i].0 == field {
            return copy_ids(&types.nouns[i].1);
        }
        i += 1;
    }
    Vec::new()
}

} // verus!
verus! {

/// Gives the places an expression passes values to the types of those
/// values: the first parameter of a noun's functions takes the owner's
/// type, and a function's parameters take its arguments'.
fn visit(types: &mut Types, program: &crate::hir::Program, function: Option<FuncId>, expr: &crate::hir::Expr, moved: &mut bool)
    ensures
        stepped(*old(types), *final(types), *old(moved), *final(moved)),
        !*final(moved) ==> expr_settled(*old(types), *program, function, *expr),
    decreases expr, 0nat,
{
    match expr {
        crate::hir::Expr::Template(items) => visit_all(types, program, function, items, moved),
        crate::hir::Expr::Table(items, entries) => {
            visit_all(types, program, function, items, moved);
            visit_entries(types, program, function, entries, moved);
        },
        crate::hir::Expr::Field { owner, field, .. } => {
            visit(types, program, function, owner, moved);
            let held = types.of(function, owner);
            let ids = candidates(types, *field);
            let ghost start = *types;
            let ghost was = *moved;
            let mut k: usize = 0;
            while k < ids.len()
                invariant
                    k <= ids@.len(),
                    ids@ == match noun_candidates(start.nouns@, *field) {
                        Some(found) => found,
                        None => Seq::<FuncId>::empty(),
                    },
                    stepped(start, *types, was, *moved),
                    !*moved ==> forall|j: int|
                        0 <= j < k && (#[trigger] ids@[j] as int) < program.functions@.len()
                            && program.functions@[ids@[j] as int].params@.len() > 0 ==> local_holds(
                            start,
                            ids@[j],
                            program.functions@[ids@[j] as int].params@[0],
                            held,
                        ),
                decreases ids@.len() - k,
            {
                let id = ids[k];
                let ghost mid = *types;
                let ghost mid_moved = *moved;
                if (id as usize) < program.functions.len() && program.functions[id as usize].params.len() > 0 {
                    let slot = program.functions[id as usize].params[0];
                    raise_local(types, id, slot, held, moved);
                    proof {
                        lemma_stepped_chain(start, mid, *types, was, mid_moved, *moved);
                    }
                }
                k += 1;
            }
        },
        crate::hir::Expr::Index { owner, place, .. } => {
            visit(types, program, function, owner, moved);
            visit(types, program, function, place, moved);
        },
        crate::hir::Expr::Pick { owner, key, .. } => {
            visit(types, program, function, owner, moved);
            visit(types, program, function, key, moved);
        },
        crate::hir::Expr::Not(inner) => visit(types, program, function, inner, moved),
        crate::hir::Expr::Ask { value, .. } => visit(types, program, function, value, moved),
        crate::hir::Expr::And(left, right) => {
            visit(types, program, function, left, moved);
            visit(types, program, function, right, moved);
        },
        crate::hir::Expr::Or(left, right) => {
            visit(types, program, function, left, moved);
            visit(types, program, function, right, moved);
        },
        crate::hir::Expr::Call { callee, args, .. } => {
            visit_all(types, program, function, args, moved);
            match callee {
                crate::hir::Callee::User(id) => if (*id as usize) < program.functions.len() {
                    let params = &program.functions[*id as usize].params;
                    let ghost start = *types;
                    let ghost was = *moved;
                    let mut k: usize = 0;
                    while k < params.len() && k < args.len()
                        invariant
                            k <= params@.len(),
                            *params == program.functions@[*id as int].params,
                            (*id as int) < program.functions@.len(),
                            stepped(start, *types, was, *moved),
                            !*moved ==> forall|j: int|
                                0 <= j < k && j < args@.len() ==> local_holds(
                                    start,
                                    *id,
                                    #[trigger] params@[j],
                                    type_of(start, function, args@[j]),
                                ),
                        decreases params@.len() - k,
                    {
                        let ghost mid = *types;
                        let ghost mid_moved = *moved;
                        let found = types.of(function, &args[k]);
                        raise_local(types, *id, params[k], found, moved);
                        proof {
                            lemma_stepped_chain(start, mid, *types, was, mid_moved, *moved);
                        }
                        k += 1;
                    }
                },
                crate::hir::Callee::Op(_) => {},
            }
        },
        _ => {},
    }
}

fn visit_all(types: &mut Types, program: &crate::hir::Program, function: Option<FuncId>, items: &Vec<crate::hir::Expr>, moved: &mut bool)
    ensures
        stepped(*old(types), *final(types), *old(moved), *final(moved)),
        !*final(moved) ==> exprs_settled(*old(types), *program, function, items@),
    decreases items, 1nat,
{
    let mut i: usize = 0;
    while i < items.len()
        invariant
            i <= items@.len(),
            stepped(*old(types), *types, *old(moved), *moved),
            !*moved ==> exprs_settled(*old(types), *program, function, items@.take(i as int)),
        decreases items@.len() - i,
    {
        proof {
            assert(decreases_to!(items => items@[i as int]));
            assert(items@.take(i + 1).drop_last() =~= items@.take(i as int));
            assert(items@.take(i + 1).last() == items@[i as int]);
        }
        let ghost mid = *types;
        let ghost mid_moved = *moved;
        visit(types, program, function, &items[i], moved);
        proof {
            lemma_stepped_chain(*old(types), mid, *types, *old(moved), mid_moved, *moved);
        }
        i += 1;
    }
    assert(items@.take(items@.len() as int) =~= items@);
}

fn visit_entries(types: &mut Types, program: &crate::hir::Program, function: Option<FuncId>, entries: &Vec<(Symbol, crate::hir::Expr)>, moved: &mut bool)
    ensures
        stepped(*old(types), *final(types), *old(moved), *final(moved)),
        !*final(moved) ==> entries_settled(*old(types), *program, function, entries@),
    decreases entries, 1nat,
{
    let mut i: usize = 0;
    while i < entries.len()
        invariant
            i <= entries@.len(),
            stepped(*old(types), *types, *old(moved), *moved),
            !*moved ==> entries_settled(*old(types), *program, function, entries@.take(i as int)),
        decreases entries@.len() - i,
    {
        proof {
            assert(decreases_to!(entries => entries@[i as int]));
            assert(entries@.take(i + 1).drop_last() =~= entries@.take(i as int));
            assert(entries@.take(i + 1).last() == entries@[i as int]);
        }
        let ghost mid = *types;
        let ghost mid_moved = *moved;
        visit(types, program, function, &entries[i].1, moved);
        proof {
            lemma_stepped_chain(*old(types), mid, *types, *old(moved), mid_moved, *moved);
        }
        i += 1;
    }
    assert(entries@.take(entries@.len() as int) =~= entries@);
}

} // verus!
verus! {

/// Gives the places a statement passes values to the types of those
/// values, as [`stmt_settled`] lists them.
fn walk_stmt(types: &mut Types, program: &crate::hir::Program, function: Option<FuncId>, statement: &crate::hir::Stmt, moved: &mut bool)
    ensures
        stepped(*old(types), *final(types), *old(moved), *final(moved)),
        !*final(moved) ==> stmt_settled(*old(types), *program, function, *statement),
    decreases statement, 0nat,
{
    match statement {
        crate::hir::Stmt::Assign { place, value } => {
            let found = types.of(function, value);
            assign(types, function, *place, found, moved);
            visit(types, program, function, value, moved);
        },
        crate::hir::Stmt::SetField { owner, value, .. } => {
            visit(types, program, function, owner, moved);
            visit(types, program, function, value, moved);
        },
        crate::hir::Stmt::SetAt { owner, place, value, .. } => {
            visit(types, program, function, owner, moved);
            visit(types, program, function, place, moved);
            visit(types, program, function, value, moved);
        },
        crate::hir::Stmt::Each { place, over, body, .. } => {
            assign(types, function, *place, Ty::Any, moved);
            visit(types, program, function, over, moved);
            walk(types, program, function, body, moved);
        },
        crate::hir::Stmt::SetPick { owner, key, value, .. } => {
            visit(types, program, function, owner, moved);
            visit(types, program, function, key, moved);
            visit(types, program, function, value, moved);
        },
        crate::hir::Stmt::Eval(value) => visit(types, program, function, value, moved),
        crate::hir::Stmt::If { branches, otherwise } => {
            let mut i: usize = 0;
            assert(branches@.take(0) =~= Seq::<(crate::hir::Expr, Vec<crate::hir::Stmt>)>::empty());
            while i < branches.len()
                invariant
                    i <= branches@.len(),
                    *statement == (crate::hir::Stmt::If { branches: *branches, otherwise: *otherwise }),
                    stepped(*old(types), *types, *old(moved), *moved),
                    !*moved ==> branches_settled(*old(types), *program, function, branches@.take(i as int)),
                decreases branches@.len() - i,
            {
                proof {
                    assert(decreases_to!(*statement => statement->branches));
                    assert(decreases_to!(branches => branches@[i as int]));
                    assert(decreases_to!(branches@[i as int] => branches@[i as int].0));
                    assert(decreases_to!(branches@[i as int] => branches@[i as int].1));
                    assert(branches@.take(i + 1).drop_last() =~= branches@.take(i as int));
                    assert(branches@.take(i + 1).last() == branches@[i as int]);
                }
                let ghost mid = *types;
                let ghost mid_moved = *moved;
                visit(types, program, function, &branches[i].0, moved);
                let ghost after = *types;
                let ghost after_moved = *moved;
                walk(types, program, function, &branches[i].1, moved);
                proof {
                    lemma_stepped_chain(mid, after, *types, mid_moved, after_moved, *moved);
                    lemma_stepped_chain(*old(types), mid, *types, *old(moved), mid_moved, *moved);
                }
                i += 1;
            }
            assert(branches@.take(branches@.len() as int) =~= branches@);
            match otherwise {
                Some(body) => {
                    let ghost mid = *types;
                    let ghost mid_moved = *moved;
                    walk(types, program, function, body, moved);
                    proof {
                        lemma_stepped_chain(*old(types), mid, *types, *old(moved), mid_moved, *moved);
                    }
                },
                None => {},
            }
        },
        crate::hir::Stmt::Range { place, start, stop, step, body, .. } => {
            let mut found = types.of(function, start).join(types.of(function, stop));
            match step {
                Some(by) => {
                    found = found.join(types.of(function, by));
                },
                None => {},
            }
            let element = if found == Ty::Int {
                Ty::Int
            } else if found.number() {
                Ty::Float
            } else {
                Ty::Any
            };
            assign(types, function, *place, element, moved);
            visit(types, program, function, start, moved);
            visit(types, program, function, stop, moved);
            match step {
                Some(by) => visit(types, program, function, by, moved),
                None => {},
            }
            walk(types, program, function, body, moved);
        },
        crate::hir::Stmt::While { test, body } => {
            visit(types, program, function, test, moved);
            walk(types, program, function, body, moved);
        },
        crate::hir::Stmt::Break => {},
        crate::hir::Stmt::Continue => {},
        crate::hir::Stmt::Return { value, .. } => {
            let found = types.of(function, value);
            match function {
                Some(id) => raise_in(&mut types.returns, id, found, moved),
                None => {},
            }
            visit(types, program, function, value, moved);
        },
    }
}

/// Walks a body statement by statement.
fn walk(types: &mut Types, program: &crate::hir::Program, function: Option<FuncId>, body: &Vec<crate::hir::Stmt>, moved: &mut bool)
    ensures
        stepped(*old(types), *final(types), *old(moved), *final(moved)),
        !*final(moved) ==> body_settled(*old(types), *program, function, body@),
    decreases body, 1nat,
{
    let mut i: usize = 0;
    assert(body@.take(0) =~= Seq::<crate::hir::Stmt>::empty());
    while i < body.len()
        invariant
            i <= body@.len(),
            stepped(*old(types), *types, *old(moved), *moved),
            !*moved ==> body_settled(*old(types), *program, function, body@.take(i as int)),
        decreases body@.len() - i,
    {
        proof {
            assert(decreases_to!(body => body@[i as int]));
            assert(body@.take(i + 1).drop_last() =~= body@.take(i as int));
            assert(body@.take(i + 1).last() == body@[i as int]);
        }
        let ghost mid = *types;
        let ghost mid_moved = *moved;
        walk_stmt(types, program, function, &body[i], moved);
        proof {
            lemma_stepped_chain(*old(types), mid, *types, *old(moved), mid_moved, *moved);
        }
        i += 1;
    }
    assert(body@.take(body@.len() as int) =~= body@);
}

} // verus!
verus! {

/// Every place the program passes a value to can hold it: in the modules'
/// own code and in each function's body.
pub open spec fn program_settled(t: Types, program: crate::hir::Program) -> bool {
    &&& forall|m: int| 0 <= m < program.modules@.len() ==> body_settled(t, program, None, #[trigger] program.modules@[m].init@)
    &&& forall|f: int|
        0 <= f < program.functions@.len() ==> body_settled(t, program, Some(f as FuncId), #[trigger] program.functions@[f].body@)
}

/// The first symbol named `wanted`.
fn named(names: &crate::intern::Interner, wanted: &str) -> (found: Option<Symbol>)
    requires
        names@.len() <= u32::MAX,
    ensures
        found matches Some(id) ==> (id as int) < names@.len() && names@[id as int] == wanted@,
{
    let count = names.len();
    let mut id: usize = 0;
    while id < count
        invariant
            id <= count,
            count == names@.len(),
            count <= u32::MAX,
        decreases count - id,
    {
        if same_text_of(names.name(id as Symbol), wanted) {
            return Some(id as Symbol);
        }
        id += 1;
    }
    None
}

fn same_text_of(left: &str, right: &str) -> (same: bool)
    ensures
        same == (left@ == right@),
{
    crate::chars::same_text(left, right)
}

/// Finds the types of a program's places and of its functions' results:
/// everything starts with no type (a function that may end without
/// returning gives nothing), and each place is raised to take in every
/// value passed to it, round after round, until a round raises nothing.
/// The types found then hold every value passed anywhere.
pub fn infer(program: &crate::hir::Program) -> (types: Types)
    requires
        sets_within(program_sets(*program), program.globals as int),
        program.names@.len() <= u32::MAX,
        program.functions@.len() <= u32::MAX,
    ensures
        program_settled(types, *program),
        types.globals@.len() == program.globals,
        types.returns@.len() == program.functions@.len(),
        types.locals@.len() == program.functions@.len(),
{
    let fields = Fields {
        kind: named(&program.names, "자료형"),
        length: named(&program.names, "길이"),
        names: named(&program.names, "명칭"),
    };
    let mut nouns: Vec<(Symbol, Vec<FuncId>)> = Vec::new();
    let mut m: usize = 0;
    while m < program.modules.len()
        decreases program.modules@.len() - m,
    {
        let module = &program.modules[m];
        let mut n: usize = 0;
        while n < module.nouns.len()
            decreases module.nouns@.len() - n,
        {
            let (field, id) = module.nouns[n];
            let mut k: usize = 0;
            let mut placed = false;
            while k < nouns.len()
                invariant
                    k <= nouns@.len(),
                decreases nouns@.len() - k,
            {
                if nouns[k].0 == field {
                    let mut entry = nouns.remove(k);
                    entry.1.push(id);
                    nouns.insert(k, entry);
                    placed = true;
                    break;
                }
                k += 1;
            }
            if !placed {
                nouns.push((field, vec![id]));
            }
            n += 1;
        }
        m += 1;
    }
    let mut globals: Vec<Ty> = Vec::new();
    let mut g: u32 = 0;
    while g < program.globals
        invariant
            globals@.len() == g,
            g <= program.globals,
        decreases program.globals - g,
    {
        globals.push(Ty::Never);
        g += 1;
    }
    let mut locals: Vec<Vec<Ty>> = Vec::new();
    let mut results: Vec<Ty> = Vec::new();
    let mut f: usize = 0;
    while f < program.functions.len()
        invariant
            f <= program.functions@.len(),
            locals@.len() == f,
            results@.len() == f,
        decreases program.functions@.len() - f,
    {
        let function = &program.functions[f];
        let mut slots: Vec<Ty> = Vec::new();
        let mut s: u32 = 0;
        while s < function.locals
            decreases function.locals - s,
        {
            slots.push(Ty::Never);
            s += 1;
        }
        locals.push(slots);
        results.push(if always_returns(&function.body) { Ty::Never } else { Ty::Nothing });
        f += 1;
    }
    let constants = constants_of(program);
    let mut types = Types { fields, nouns, globals, locals, returns: results, constants };
    loop
        invariant
            types.globals@.len() == program.globals,
            types.returns@.len() == program.functions@.len(),
            types.locals@.len() == program.functions@.len(),
            program.functions@.len() <= u32::MAX,
        ensures
            program_settled(types, *program),
            types.globals@.len() == program.globals,
            types.returns@.len() == program.functions@.len(),
            types.locals@.len() == program.functions@.len(),
        decreases room(types),
    {
        let ghost start = types;
        let mut moved = false;
        let mut m: usize = 0;
        while m < program.modules.len()
            invariant
                m <= program.modules@.len(),
                stepped(start, types, false, moved),
                !moved ==> forall|j: int| 0 <= j < m ==> body_settled(start, *program, None, #[trigger] program.modules@[j].init@),
            decreases program.modules@.len() - m,
        {
            let ghost mid = types;
            let ghost mid_moved = moved;
            walk(&mut types, program, None, &program.modules[m].init, &mut moved);
            proof {
                lemma_stepped_chain(start, mid, types, false, mid_moved, moved);
            }
            m += 1;
        }
        let mut f: usize = 0;
        while f < program.functions.len()
            invariant
                f <= program.functions@.len(),
                program.functions@.len() <= u32::MAX,
                stepped(start, types, false, moved),
                !moved ==> forall|j: int| 0 <= j < program.modules@.len() ==> body_settled(start, *program, None, #[trigger] program.modules@[j].init@),
                !moved ==> forall|j: int|
                    0 <= j < f ==> body_settled(start, *program, Some(j as FuncId), #[trigger] program.functions@[j].body@),
            decreases program.functions@.len() - f,
        {
            let ghost mid = types;
            let ghost mid_moved = moved;
            walk(&mut types, program, Some(f as FuncId), &program.functions[f].body, &mut moved);
            proof {
                lemma_stepped_chain(start, mid, types, false, mid_moved, moved);
            }
            f += 1;
        }
        if !moved {
            break;
        }
    }
    types
}

} // verus!
verus! {

/// Arithmetic keeps integers integers: subtracting, multiplying, taking
/// the remainder of, or adding two integers gives an integer; when both
/// operands are numbers but not both integers the result is a real; when
/// either is no number it is unknown (adding to text gives text). Dividing
/// always gives a real.
pub proof fn law_arithmetic_types(
    t: Types,
    function: Option<FuncId>,
    op: crate::builtins::Builtin,
    args: Vec<crate::hir::Expr>,
    span: crate::diag::Span,
)
    requires
        args@.len() == 2,
    ensures
        ({
            let a = type_of(t, function, args@[0]);
            let b = type_of(t, function, args@[1]);
            let found = type_of(t, function, crate::hir::Expr::Call { callee: crate::hir::Callee::Op(op), args, span });
            let numbers = (a == Ty::Int || a == Ty::Float) && (b == Ty::Int || b == Ty::Float);
            let arithmetic = op == crate::builtins::Builtin::Sub || op == crate::builtins::Builtin::Mul
                || op == crate::builtins::Builtin::Rem || ((op == crate::builtins::Builtin::Add
                || op == crate::builtins::Builtin::AddCopy) && a != Ty::Str);
            &&& arithmetic && a == Ty::Int && b == Ty::Int ==> found == Ty::Int
            &&& arithmetic && numbers && !(a == Ty::Int && b == Ty::Int) ==> found == Ty::Float
            &&& arithmetic && !numbers ==> found == Ty::Any
            &&& (op == crate::builtins::Builtin::Add || op == crate::builtins::Builtin::AddCopy) && a == Ty::Str
                ==> found == Ty::Str
            &&& op == crate::builtins::Builtin::Div ==> found == Ty::Float
        }),
{
}

} // verus!
verus! {

/// Comparisons and truth tests give truth values, printing, stopping and
/// `없음` give nothing, and reading, opening and writing (which may fail)
/// give an unknown, whatever they are given; a call of one of the
/// program's functions has the type found for that function's result.
pub proof fn law_call_types(
    t: Types,
    function: Option<FuncId>,
    callee: crate::hir::Callee,
    args: Vec<crate::hir::Expr>,
    span: crate::diag::Span,
)
    ensures
        ({
            let found = type_of(t, function, crate::hir::Expr::Call { callee, args, span });
            &&& callee matches crate::hir::Callee::Op(op) ==> {
                &&& (op == crate::builtins::Builtin::Greater || op == crate::builtins::Builtin::Less
                    || op == crate::builtins::Builtin::Equal || op == crate::builtins::Builtin::Truthy)
                    ==> found == Ty::Bool
                &&& (op == crate::builtins::Builtin::Print || op == crate::builtins::Builtin::Stop
                    || op == crate::builtins::Builtin::Nothing) ==> found == Ty::Nothing
                &&& (op == crate::builtins::Builtin::Read || op == crate::builtins::Builtin::Open
                    || op == crate::builtins::Builtin::Write) ==> found == Ty::Any
            }
            &&& callee matches crate::hir::Callee::User(id) ==> ((id as int) < t.returns@.len() ==> found
                == t.returns@[id as int])
        }),
{
}

} // verus!
verus! {

/// Literals have their own types; a template is text and a table is a
/// table; negations, questions and joined conditions are truth values; an
/// item or entry picked out of a table is unknown; `자료형` of anything is
/// text and `길이` of a table or a text is an integer; a place has the type
/// the inference holds for it.
pub proof fn law_expression_types(t: Types, function: Option<FuncId>, expr: crate::hir::Expr)
    ensures
        ({
            let found = type_of(t, function, expr);
            &&& expr is Int ==> found == Ty::Int
            &&& expr is Float ==> found == Ty::Float
            &&& expr is Str ==> found == Ty::Str
            &&& expr is Bool ==> found == Ty::Bool
            &&& expr is Nothing ==> found == Ty::Nothing
            &&& expr is Template ==> found == Ty::Str
            &&& expr is Table ==> found == Ty::Table
            &&& (expr is Not || expr is Ask || expr is And || expr is Or) ==> found == Ty::Bool
            &&& (expr is Index || expr is Pick) ==> found == Ty::Any
            &&& expr matches crate::hir::Expr::Global(slot) ==> ((slot as int) < t.globals@.len() ==> found
                == t.globals@[slot as int])
            &&& expr matches crate::hir::Expr::Local(slot) ==> (function is None ==> found == Ty::Any)
            &&& expr matches crate::hir::Expr::Field { owner, field, .. } ==> {
                &&& t.fields.kind == Some(field) ==> found == Ty::Str
                &&& t.fields.kind != Some(field) && t.fields.length == Some(field) && (type_of(t, function, *owner) == Ty::Table || type_of(
                    t,
                    function,
                    *owner,
                ) == Ty::Str) ==> found == Ty::Int
            }
        }),
{
}

} // verus!
