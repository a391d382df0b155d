//! The code generator's own machinery over the LLVM text it writes: how
//! each inferred type is represented, how string constants are spelled and
//! made once, temporaries, labels and stack slots, boxing and unboxing,
//! truth tests, reading and writing places, positions and frames, closing
//! a function, the finished module with its table of sources, and which
//! bodies call functions of the program (and so need a frame).

use vstd::prelude::*;

use crate::chars::{push_char, push_str};
use crate::types::Ty;
use vstd::string::StringSliceAdditionalSpecFns;

verus! {

/// How a value is held in generated code: a machine word, a double, a
/// flag, or a boxed run-time value.
#[derive(Clone, Copy, Debug, PartialEq, Eq, Structural)]
pub enum Repr {
    Word,
    Real,
    Flag,
    Boxed,
}

pub open spec fn repr_of(ty: Ty) -> Repr {
    match ty {
        Ty::Int => Repr::Word,
        Ty::Float => Repr::Real,
        Ty::Bool => Repr::Flag,
        _ => Repr::Boxed,
    }
}

pub open spec fn llvm_name(repr: Repr) -> Seq<char> {
    match repr {
        Repr::Word => "i64"@,
        Repr::Real => "double"@,
        Repr::Flag => "i1"@,
        Repr::Boxed => "ptr"@,
    }
}

impl Repr {
    /// The representation of a type: integers, reals and truths unboxed,
    /// anything else boxed.
    pub fn of(ty: Ty) -> (found: Repr)
        ensures
            found == repr_of(ty),
    {
        match ty {
            Ty::Int => Repr::Word,
            Ty::Float => Repr::Real,
            Ty::Bool => Repr::Flag,
            _ => Repr::Boxed,
        }
    }

    /// The LLVM type of a value so represented.
    pub fn llvm(self) -> (found: &'static str)
        ensures
            found@ == llvm_name(self),
    {
        match self {
            Repr::Word => "i64",
            Repr::Real => "double",
            Repr::Flag => "i1",
            Repr::Boxed => "ptr",
        }
    }

    /// The LLVM type of a place that holds it: a boxed value is stored
    /// whole.
    pub fn storage(self) -> (found: &'static str)
        ensures
            found@ == if self == Repr::Boxed {
                "%Value"@
            } else {
                llvm_name(self)
            },
    {
        match self {
            Repr::Boxed => "%Value",
            other => other.llvm(),
        }
    }

    /// The LLVM constant a fresh place starts with.
    pub fn zero(self) -> (found: &'static str)
        ensures
            found@ == match self {
                Repr::Word => "0"@,
                Repr::Real => "0x0000000000000000"@,
                Repr::Flag => "false"@,
                Repr::Boxed => "null"@,
            },
    {
        match self {
            Repr::Word => "0",
            Repr::Real => "0x0000000000000000",
            Repr::Flag => "false",
            Repr::Boxed => "null",
        }
    }

    /// The run-time tag of a value so represented (0 where the box says).
    pub fn tag(self) -> (found: u64)
        ensures
            found == match self {
                Repr::Flag => crate::value::BOOL,
                Repr::Word => crate::value::INT,
                Repr::Real => crate::value::FLOAT,
                Repr::Boxed => 0u64,
            },
    {
        match self {
            Repr::Flag => 1,
            Repr::Word => 2,
            Repr::Real => 3,
            Repr::Boxed => 0,
        }
    }
}

/// An upper-case hexadecimal digit.
pub open spec fn hex_digit(d: int) -> char {
    if d < 10 {
        ((48 + d) as u32) as char
    } else {
        ((55 + d) as u32) as char
    }
}

/// How LLVM spells a byte of a string constant: printable ASCII as it is,
/// except the quote and the backslash; any other byte as a backslash and
/// two hexadecimal digits.
pub open spec fn escaped_byte(byte: u8) -> Seq<char> {
    if byte != 34 && byte != 92 && 0x20 <= byte <= 0x7E {
        seq![byte as char]
    } else {
        seq!['\\', hex_digit((byte / 16) as int), hex_digit((byte % 16) as int)]
    }
}

pub open spec fn escaped_bytes(bytes: Seq<u8>) -> Seq<char>
    decreases bytes.len(),
{
    if bytes.len() == 0 {
        seq![]
    } else {
        escaped_bytes(bytes.drop_last()) + escaped_byte(bytes.last())
    }
}

fn hex(d: u8) -> (found: char)
    requires
        d < 16,
    ensures
        found == hex_digit(d as int),
{
    if d < 10 {
        (48 + d) as char
    } else {
        (55 + d) as char
    }
}

/// The bytes spelled for an LLVM string constant.
pub fn escape(bytes: &[u8]) -> (out: String)
    ensures
        out@ == escaped_bytes(bytes@),
{
    let mut out = String::new();
    let mut at: usize = 0;
    assert(bytes@.take(0) =~= Seq::<u8>::empty());
    while at < bytes.len()
        invariant
            at <= bytes@.len(),
            out@ == escaped_bytes(bytes@.take(at as int)),
        decreases bytes@.len() - at,
    {
        let byte = bytes[at];
        assert(bytes@.take(at + 1).drop_last() =~= bytes@.take(at as int));
        assert(bytes@.take(at + 1).last() == byte);
        let ghost before = out@;
        if byte != 34 && byte != 92 && 0x20 <= byte && byte <= 0x7E {
            push_char(&mut out, byte as char);
        } else {
            push_char(&mut out, '\\');
            push_char(&mut out, hex(byte / 16));
            push_char(&mut out, hex(byte % 16));
        }
        assert(out@ =~= before + escaped_byte(byte));
        at += 1;
    }
    assert(bytes@.take(bytes@.len() as int) =~= bytes@);
    out
}

} // verus!
verus! {

/// An expression that calls a function of the program somewhere in it.
pub open spec fn expr_calls_user(expr: crate::hir::Expr) -> bool
    decreases expr,
{
    match expr {
        crate::hir::Expr::Call { callee, args, .. } => callee is User || exprs_call_user(args@),
        crate::hir::Expr::Field { owner, .. } => expr_calls_user(*owner),
        crate::hir::Expr::Index { owner, place, .. } => expr_calls_user(*owner) || expr_calls_user(*place),
        crate::hir::Expr::Pick { owner, key, .. } => expr_calls_user(*owner) || expr_calls_user(*key),
        crate::hir::Expr::Template(items) => exprs_call_user(items@),
        crate::hir::Expr::Table(items, entries) => exprs_call_user(items@) || entries_call_user(entries@),
        crate::hir::Expr::Not(inner) => expr_calls_user(*inner),
        crate::hir::Expr::Ask { value, .. } => expr_calls_user(*value),
        crate::hir::Expr::And(left, right) => expr_calls_user(*left) || expr_calls_user(*right),
        crate::hir::Expr::Or(left, right) => expr_calls_user(*left) || expr_calls_user(*right),
        _ => false,
    }
}

pub open spec fn exprs_call_user(items: Seq<crate::hir::Expr>) -> bool
    decreases items,
{
    items.len() > 0 && (exprs_call_user(items.drop_last()) || expr_calls_user(items.last()))
}

pub open spec fn entries_call_user(entries: Seq<(crate::intern::Symbol, crate::hir::Expr)>) -> bool
    decreases entries,
{
    entries.len() > 0 && (entries_call_user(entries.drop_last()) || expr_calls_user(entries.last().1))
}

pub open spec fn tests_call_user(branches: Seq<(crate::hir::Expr, Vec<crate::hir::Stmt>)>) -> bool
    decreases branches,
{
    branches.len() > 0 && (tests_call_user(branches.drop_last()) || expr_calls_user(branches.last().0))
}

/// The values, tests and bounds of a statement itself call a function of
/// the program.
pub open spec fn own_calls_user(statement: crate::hir::Stmt) -> bool {
    match statement {
        crate::hir::Stmt::Assign { value, .. } => expr_calls_user(value),
        crate::hir::Stmt::Eval(value) => expr_calls_user(value),
        crate::hir::Stmt::Return { value, .. } => expr_calls_user(value),
        crate::hir::Stmt::SetField { owner, value, .. } => expr_calls_user(owner) || expr_calls_user(value),
        crate::hir::Stmt::SetPick { owner, key, value, .. } => expr_calls_user(owner) || expr_calls_user(key) || expr_calls_user(value),
        crate::hir::Stmt::SetAt { owner, place, value, .. } => expr_calls_user(owner) || expr_calls_user(place) || expr_calls_user(value),
        crate::hir::Stmt::Each { over, .. } => expr_calls_user(over),
        crate::hir::Stmt::While { test, .. } => expr_calls_user(test),
        crate::hir::Stmt::If { branches, .. } => tests_call_user(branches@),
        crate::hir::Stmt::Range { start, stop, step, .. } => expr_calls_user(start) || expr_calls_user(stop) || match step {
            Some(by) => expr_calls_user(by),
            None => false,
        },
        crate::hir::Stmt::Break => false,
        crate::hir::Stmt::Continue => false,
    }
}

/// A body calls a function of the program: one of its statements does,
/// itself or in a body under it.
pub open spec fn body_calls_user(body: Seq<crate::hir::Stmt>) -> bool
    decreases body,
{
    body.len() > 0 && (body_calls_user(body.drop_last()) || own_calls_user(body.last()) || inner_calls_user(body.last()))
}

/// A body directly under a statement calls a function of the program.
pub open spec fn inner_calls_user(statement: crate::hir::Stmt) -> bool
    decreases statement,
{
    match statement {
        crate::hir::Stmt::If { branches, otherwise } => branches_call_user(branches@) || match otherwise {
            Some(rest) => body_calls_user(rest@),
            None => false,
        },
        crate::hir::Stmt::Range { body, .. } => body_calls_user(body@),
        crate::hir::Stmt::While { body, .. } => body_calls_user(body@),
        crate::hir::Stmt::Each { body, .. } => body_calls_user(body@),
        _ => false,
    }
}

pub open spec fn branches_call_user(branches: Seq<(crate::hir::Expr, Vec<crate::hir::Stmt>)>) -> bool
    decreases branches,
{
    branches.len() > 0 && (branches_call_user(branches.drop_last()) || body_calls_user(branches.last().1@))
}

/// One of several bodies calls a function of the program.
pub open spec fn any_calls_user(blocks: Seq<Vec<crate::hir::Stmt>>) -> bool
    decreases blocks.len(),
{
    blocks.len() > 0 && (any_calls_user(blocks.drop_last()) || body_calls_user(blocks.last()@))
}

proof fn lemma_branches_any(branches: Seq<(crate::hir::Expr, Vec<crate::hir::Stmt>)>)
    ensures
        branches_call_user(branches) == any_calls_user(crate::types::branch_bodies(branches)),
    decreases branches.len(),
{
    if branches.len() > 0 {
        assert(crate::types::branch_bodies(branches).drop_last() =~= crate::types::branch_bodies(branches.drop_last()));
        lemma_branches_any(branches.drop_last());
    }
}

proof fn lemma_inner_any(statement: crate::hir::Stmt)
    ensures
        inner_calls_user(statement) == any_calls_user(crate::types::blocks_of(statement)),
{
    match statement {
        crate::hir::Stmt::If { branches, otherwise } => {
            lemma_branches_any(branches@);
            let listed = crate::types::branch_bodies(branches@);
            match otherwise {
                Some(rest) => {
                    let all = listed + seq![rest];
                    assert(all.drop_last() =~= listed);
                    assert(all.last() == rest);
                    assert(crate::types::blocks_of(statement) == all);
                },
                None => {
                    assert(listed + Seq::<Vec<crate::hir::Stmt>>::empty() =~= listed);
                    assert(crate::types::blocks_of(statement) == listed);
                },
            }
        },
        crate::hir::Stmt::Range { body, .. } => lemma_any_single(body),
        crate::hir::Stmt::While { body, .. } => lemma_any_single(body),
        crate::hir::Stmt::Each { body, .. } => lemma_any_single(body),
        _ => {},
    }
}

proof fn lemma_any_single(body: Vec<crate::hir::Stmt>)
    ensures
        any_calls_user(seq![body]) == body_calls_user(body@),
{
    let listed = seq![body];
    assert(listed.drop_last() =~= Seq::<Vec<crate::hir::Stmt>>::empty());
    assert(listed.last() == body);
    assert(!any_calls_user(Seq::<Vec<crate::hir::Stmt>>::empty()));
}

fn in_expr(expr: &crate::hir::Expr) -> (found: bool)
    ensures
        found == expr_calls_user(*expr),
    decreases expr,
{
    match expr {
        crate::hir::Expr::Call { callee, args, .. } => {
            let user = match callee {
                crate::hir::Callee::User(_) => true,
                crate::hir::Callee::Op(_) => false,
            };
            user || in_exprs(args)
        },
        crate::hir::Expr::Field { owner, .. } => in_expr(owner),
        crate::hir::Expr::Index { owner, place, .. } => in_expr(owner) || in_expr(place),
        crate::hir::Expr::Pick { owner, key, .. } => in_expr(owner) || in_expr(key),
        crate::hir::Expr::Template(items) => in_exprs(items),
        crate::hir::Expr::Table(items, entries) => in_exprs(items) || in_entries(entries),
        crate::hir::Expr::Not(inner) => in_expr(inner),
        crate::hir::Expr::Ask { value, .. } => in_expr(value),
        crate::hir::Expr::And(left, right) => in_expr(left) || in_expr(right),
        crate::hir::Expr::Or(left, right) => in_expr(left) || in_expr(right),
        _ => false,
    }
}

fn in_exprs(items: &Vec<crate::hir::Expr>) -> (found: bool)
    ensures
        found == exprs_call_user(items@),
    decreases items,
{
    let mut at: usize = 0;
    assert(items@.take(0) =~= Seq::<crate::hir::Expr>::empty());
    while at < items.len()
        invariant
            at <= items@.len(),
            !exprs_call_user(items@.take(at as int)),
        decreases items@.len() - at,
    {
        assert(items@.take(at + 1).drop_last() =~= items@.take(at as int));
        assert(decreases_to!(*items => items[at as int]));
        if in_expr(&items[at]) {
            proof {
                lemma_exprs_prefix(items@, at + 1);
            }
            return true;
        }
        at += 1;
    }
    assert(items@.take(items@.len() as int) =~= items@);
    false
}

proof fn lemma_exprs_prefix(items: Seq<crate::hir::Expr>, k: int)
    requires
        0 <= k <= items.len(),
        exprs_call_user(items.take(k)),
    ensures
        exprs_call_user(items),
    decreases items.len() - k,
{
    if k < items.len() {
        assert(items.take(k + 1).drop_last() =~= items.take(k));
        lemma_exprs_prefix(items, k + 1);
    } else {
        assert(items.take(k) =~= items);
    }
}

fn in_entries(entries: &Vec<(crate::intern::Symbol, crate::hir::Expr)>) -> (found: bool)
    ensures
        found == entries_call_user(entries@),
    decreases entries,
{
    let mut at: usize = 0;
    assert(entries@.take(0) =~= Seq::<(crate::intern::Symbol, crate::hir::Expr)>::empty());
    while at < entries.len()
        invariant
            at <= entries@.len(),
            !entries_call_user(entries@.take(at as int)),
        decreases entries@.len() - at,
    {
        assert(entries@.take(at + 1).drop_last() =~= entries@.take(at as int));
        assert(decreases_to!(*entries => entries[at as int]));
        assert(decreases_to!(entries[at as int] => entries[at as int].1));
        if in_expr(&entries[at].1) {
            proof {
                lemma_entries_prefix(entries@, at + 1);
            }
            return true;
        }
        at += 1;
    }
    assert(entries@.take(entries@.len() as int) =~= entries@);
    false
}

proof fn lemma_entries_prefix(entries: Seq<(crate::intern::Symbol, crate::hir::Expr)>, k: int)
    requires
        0 <= k <= entries.len(),
        entries_call_user(entries.take(k)),
    ensures
        entries_call_user(entries),
    decreases entries.len() - k,
{
    if k < entries.len() {
        assert(entries.take(k + 1).drop_last() =~= entries.take(k));
        lemma_entries_prefix(entries, k + 1);
    } else {
        assert(entries.take(k) =~= entries);
    }
}

} // verus!
verus! {

fn in_tests(branches: &Vec<(crate::hir::Expr, Vec<crate::hir::Stmt>)>) -> (found: bool)
    ensures
        found == tests_call_user(branches@),
{
    let mut at: usize = 0;
    assert(branches@.take(0) =~= Seq::<(crate::hir::Expr, Vec<crate::hir::Stmt>)>::empty());
    while at < branches.len()
        invariant
            at <= branches@.len(),
            !tests_call_user(branches@.take(at as int)),
        decreases branches@.len() - at,
    {
        assert(branches@.take(at + 1).drop_last() =~= branches@.take(at as int));
        if in_expr(&branches[at].0) {
            proof {
                lemma_tests_prefix(branches@, at + 1);
            }
            return true;
        }
        at += 1;
    }
    assert(branches@.take(branches@.len() as int) =~= branches@);
    false
}

proof fn lemma_tests_prefix(branches: Seq<(crate::hir::Expr, Vec<crate::hir::Stmt>)>, k: int)
    requires
        0 <= k <= branches.len(),
        tests_call_user(branches.take(k)),
    ensures
        tests_call_user(branches),
    decreases branches.len() - k,
{
    if k < branches.len() {
        assert(branches.take(k + 1).drop_last() =~= branches.take(k));
        lemma_tests_prefix(branches, k + 1);
    } else {
        assert(branches.take(k) =~= branches);
    }
}

proof fn lemma_body_prefix(body: Seq<crate::hir::Stmt>, k: int)
    requires
        0 <= k <= body.len(),
        body_calls_user(body.take(k)),
    ensures
        body_calls_user(body),
    decreases body.len() - k,
{
    if k < body.len() {
        assert(body.take(k + 1).drop_last() =~= body.take(k));
        lemma_body_prefix(body, k + 1);
    } else {
        assert(body.take(k) =~= body);
    }
}

proof fn lemma_any_prefix(blocks: Seq<Vec<crate::hir::Stmt>>, k: int)
    requires
        0 <= k <= blocks.len(),
        any_calls_user(blocks.take(k)),
    ensures
        any_calls_user(blocks),
    decreases blocks.len() - k,
{
    if k < blocks.len() {
        assert(blocks.take(k + 1).drop_last() =~= blocks.take(k));
        lemma_any_prefix(blocks, k + 1);
    } else {
        assert(blocks.take(k) =~= blocks);
    }
}

/// Whether a statement calls a function of the program: in its own values,
/// tests and bounds, or in a body under it.
fn in_stmt(statement: &crate::hir::Stmt) -> (found: bool)
    ensures
        found == (own_calls_user(*statement) || inner_calls_user(*statement)),
    decreases statement,
{
    let here = match statement {
        crate::hir::Stmt::Assign { value, .. } => in_expr(value),
        crate::hir::Stmt::Eval(value) => in_expr(value),
        crate::hir::Stmt::Return { value, .. } => in_expr(value),
        crate::hir::Stmt::SetField { owner, value, .. } => in_expr(owner) || in_expr(value),
        crate::hir::Stmt::SetPick { owner, key, value, .. } => in_expr(owner) || in_expr(key) || in_expr(value),
        crate::hir::Stmt::SetAt { owner, place, value, .. } => in_expr(owner) || in_expr(place) || in_expr(value),
        crate::hir::Stmt::Each { over, .. } => in_expr(over),
        crate::hir::Stmt::While { test, .. } => in_expr(test),
        crate::hir::Stmt::If { branches, .. } => in_tests(branches),
        crate::hir::Stmt::Range { start, stop, step, .. } => in_expr(start) || in_expr(stop) || match step {
            Some(by) => in_expr(by),
            None => false,
        },
        crate::hir::Stmt::Break => false,
        crate::hir::Stmt::Continue => false,
    };
    if here {
        return true;
    }
    let inner = crate::types::blocks(statement);
    let ghost listed = crate::types::blocks_of(*statement);
    proof {
        lemma_inner_any(*statement);
    }
    assert(listed.take(0) =~= Seq::<Vec<crate::hir::Stmt>>::empty());
    let mut k: usize = 0;
    while k < inner.len()
        invariant
            k <= inner@.len(),
            crate::types::bodies(inner@) == listed,
            listed == crate::types::blocks_of(*statement),
            inner_calls_user(*statement) == any_calls_user(listed),
            !any_calls_user(listed.take(k as int)),
        decreases inner@.len() - k,
    {
        proof {
            assert(*inner@[k as int] == listed[k as int]);
            crate::types::lemma_blocks_smaller(*statement, k as int);
            assert(listed.take(k + 1).drop_last() =~= listed.take(k as int));
        }
        if calls_user(inner[k]) {
            proof {
                lemma_any_prefix(listed, k + 1);
            }
            return true;
        }
        k += 1;
    }
    assert(listed.take(listed.len() as int) =~= listed);
    false
}

/// Whether a body calls a function of the program anywhere, in its own
/// statements or in the bodies under them. A function whose body calls
/// none needs no frame of its own.
pub fn calls_user(body: &Vec<crate::hir::Stmt>) -> (found: bool)
    ensures
        found == body_calls_user(body@),
    decreases body,
{
    let mut at: usize = 0;
    assert(body@.take(0) =~= Seq::<crate::hir::Stmt>::empty());
    while at < body.len()
        invariant
            at <= body@.len(),
            !body_calls_user(body@.take(at as int)),
        decreases body@.len() - at,
    {
        assert(body@.take(at + 1).drop_last() =~= body@.take(at as int));
        assert(decreases_to!(*body => body[at as int]));
        if in_stmt(&body[at]) {
            proof {
                lemma_body_prefix(body@, at + 1);
            }
            return true;
        }
        at += 1;
    }
    assert(body@.take(body@.len() as int) =~= body@);
    false
}

} // verus!
verus! {

/// A value in generated code: how it is represented, and the LLVM name
/// that holds it.
pub struct Val {
    pub repr: Repr,
    pub name: String,
}

/// The code generator's state over a lowered program: the string
/// constants made so far (each text with its global's name) and their
/// definitions, the finished functions, the body being written and the
/// stack slots it asks for, the counters that name temporaries and labels,
/// the open loops (where `다음` and `그만` go), the last position stored,
/// the call sites noted, and where it stands.
pub struct Emitter<'a> {
    pub program: &'a crate::hir::Program,
    pub types: crate::types::Types,
    pub strings: Vec<(String, String)>,
    pub constants: String,
    pub functions: String,
    pub body: String,
    pub allocas: Vec<String>,
    pub temps: u32,
    pub labels: u32,
    pub loops: Vec<(String, String)>,
    pub marked: Option<u64>,
    pub sites: String,
    pub site_count: u32,
    pub module: crate::hir::ModuleId,
    pub current: Option<crate::hir::FuncId>,
    pub frames: bool,
    pub errors: Vec<crate::diag::Diag>,
}

/// The code of a body being written: its lines, the stack slots it asks
/// for, and how many temporaries are named.
pub type Code = (Seq<char>, Seq<Seq<char>>, int);

pub open spec fn texts(found: Seq<String>) -> Seq<Seq<char>> {
    Seq::new(found.len(), |i: int| found[i]@)
}

/// The name of the `n`th temporary.
pub open spec fn temp_name(n: int) -> Seq<char> {
    "%v"@ + crate::chars::decimal(n as nat)
}

/// A fresh temporary.
pub open spec fn code_temp(code: Code) -> (Code, Seq<char>) {
    ((code.0, code.1, code.2 + 1), temp_name(code.2 + 1))
}

/// An instruction line of the body.
pub open spec fn code_line(code: Code, text: Seq<char>) -> Code {
    (code.0 + "  "@ + text + "\n"@, code.1, code.2)
}

/// A fresh stack slot of LLVM type `kind`.
pub open spec fn code_slot(code: Code, kind: Seq<char>) -> (Code, Seq<char>) {
    let (made, name) = code_temp(code);
    ((made.0, made.1.push("  "@ + name + " = alloca "@ + kind + ", align 8"@), made.2), name)
}

/// A pointer to field `index` (0 the tag, 1 the bits) of the value in
/// `holder`.
pub open spec fn code_field_ptr(code: Code, holder: Seq<char>, index: u32) -> (Code, Seq<char>) {
    let (made, name) = code_temp(code);
    (code_line(made, name + " = getelementptr inbounds %Value, ptr "@ + holder + ", i64 0, i32 "@
        + crate::chars::decimal(index as nat)), name)
}

/// The run-time tag stored for a representation.
pub open spec fn repr_tag(repr: Repr) -> nat {
    match repr {
        Repr::Flag => 1,
        Repr::Word => 2,
        Repr::Real => 3,
        Repr::Boxed => 0,
    }
}

/// The 64 bits of an unboxed value.
pub open spec fn code_bits(code: Code, repr: Repr, name: Seq<char>) -> (Code, Seq<char>) {
    match repr {
        Repr::Real => {
            let (made, cast) = code_temp(code);
            (code_line(made, cast + " = bitcast double "@ + name + " to i64"@), cast)
        },
        Repr::Flag => {
            let (made, wide) = code_temp(code);
            (code_line(made, wide + " = zext i1 "@ + name + " to i64"@), wide)
        },
        _ => (code, name),
    }
}

/// A value boxed: a fresh slot whose tag and bits are stored.
pub open spec fn code_boxed(code: Code, repr: Repr, name: Seq<char>) -> (Code, Seq<char>) {
    if repr == Repr::Boxed {
        (code, name)
    } else {
        let (c1, bits) = code_bits(code, repr, name);
        let (c2, holder) = code_slot(c1, "%Value"@);
        let (c3, tag) = code_field_ptr(c2, holder, 0);
        let c4 = code_line(c3, "store i64 "@ + crate::chars::decimal(repr_tag(repr)) + ", ptr "@ + tag + ", align 8"@);
        let (c5, cell) = code_field_ptr(c4, holder, 1);
        (code_line(c5, "store i64 "@ + bits + ", ptr "@ + cell + ", align 8"@), holder)
    }
}

/// The bits of a boxed value in `holder`, read as `want`.
pub open spec fn code_from_box(code: Code, holder: Seq<char>, want: Repr) -> (Code, Seq<char>) {
    let (c1, cell) = code_field_ptr(code, holder, 1);
    let (c2, bits) = code_temp(c1);
    let c3 = code_line(c2, bits + " = load i64, ptr "@ + cell + ", align 8"@);
    match want {
        Repr::Real => {
            let (c4, cast) = code_temp(c3);
            (code_line(c4, cast + " = bitcast i64 "@ + bits + " to double"@), cast)
        },
        Repr::Flag => {
            let (c4, test) = code_temp(c3);
            (code_line(c4, test + " = icmp ne i64 "@ + bits + ", 0"@), test)
        },
        _ => (c3, bits),
    }
}

/// A value converted to the representation `want`: as it is when it has
/// it; read out of its box; an integer widened to a real or tested against
/// zero; a truth widened to an integer; else boxed and read back.
pub open spec fn code_unboxed(code: Code, repr: Repr, name: Seq<char>, want: Repr) -> (Code, Seq<char>) {
    if repr == want {
        (code, name)
    } else if repr == Repr::Boxed {
        code_from_box(code, name, want)
    } else if repr == Repr::Word && want == Repr::Real {
        let (made, cast) = code_temp(code);
        (code_line(made, cast + " = sitofp i64 "@ + name + " to double"@), cast)
    } else if repr == Repr::Word && want == Repr::Flag {
        let (made, test) = code_temp(code);
        (code_line(made, test + " = icmp ne i64 "@ + name + ", 0"@), test)
    } else if repr == Repr::Flag && want == Repr::Word {
        let (made, wide) = code_temp(code);
        (code_line(made, wide + " = zext i1 "@ + name + " to i64"@), wide)
    } else {
        let (made, holder) = code_boxed(code, repr, name);
        code_from_box(made, holder, want)
    }
}

/// A value tested for truth, as an `i1`.
pub open spec fn code_truth(code: Code, repr: Repr, name: Seq<char>) -> (Code, Seq<char>) {
    match repr {
        Repr::Flag => (code, name),
        Repr::Word => code_unboxed(code, repr, name, Repr::Flag),
        Repr::Real => {
            let (made, test) = code_temp(code);
            (code_line(made, test + " = fcmp one double "@ + name + ", 0.0"@), test)
        },
        Repr::Boxed => {
            let (c1, raw) = code_temp(code);
            let c2 = code_line(c1, raw + " = call i8 @sr_truthy(ptr "@ + name + ")"@);
            let (c3, test) = code_temp(c2);
            (code_line(c3, test + " = icmp ne i8 "@ + raw + ", 0"@), test)
        },
    }
}

impl<'a> Emitter<'a> {
    pub open spec fn code(&self) -> Code {
        (self.body@, texts(self.allocas@), self.temps as int)
    }

    /// All but the body, its slots, the counter of temporaries and the
    /// last position stay.
    pub open spec fn others_kept(&self, before: Emitter<'a>) -> bool {
        &&& self.program == before.program
        &&& self.types == before.types
        &&& self.strings == before.strings
        &&& self.constants == before.constants
        &&& self.functions == before.functions
        &&& self.labels == before.labels
        &&& self.loops == before.loops
        &&& self.sites == before.sites
        &&& self.site_count == before.site_count
        &&& self.module == before.module
        &&& self.current == before.current
        &&& self.frames == before.frames
        &&& self.errors == before.errors
    }

    /// Writes an instruction line.
    pub fn line(&mut self, text: &str)
        ensures
            final(self).code() == code_line(old(self).code(), text@),
            final(self).others_kept(*old(self)),
            final(self).marked == old(self).marked,
    {
        push_str(&mut self.body, "  ");
        push_str(&mut self.body, text);
        push_str(&mut self.body, "\n");
    }

    /// Starts the block `label`; no position is stored in it yet.
    pub fn mark(&mut self, label: &str)
        ensures
            final(self).code() == (old(self).body@ + label@ + ":\n"@, old(self).code().1, old(self).code().2),
            final(self).others_kept(*old(self)),
            final(self).marked is None,
    {
        self.marked = None;
        push_str(&mut self.body, label);
        push_str(&mut self.body, ":\n");
    }

    /// A fresh label: `tag` and the next number.
    pub fn label(&mut self, tag: &str) -> (name: String)
        requires
            old(self).labels < u32::MAX,
        ensures
            final(self).labels == old(self).labels + 1,
            name@ == tag@ + crate::chars::decimal(final(self).labels as nat),
            final(self).code() == old(self).code(),
            final(self).marked == old(self).marked,
            final(self).program == old(self).program,
            final(self).types == old(self).types,
            final(self).strings == old(self).strings,
            final(self).constants == old(self).constants,
            final(self).functions == old(self).functions,
            final(self).loops == old(self).loops,
            final(self).module == old(self).module,
            final(self).current == old(self).current,
            final(self).errors == old(self).errors,
            final(self).sites == old(self).sites,
            final(self).site_count == old(self).site_count,
            final(self).frames == old(self).frames,
    {
        self.labels += 1;
        let mut name = crate::chars::owned(tag);
        crate::chars::push_decimal(&mut name, self.labels as u64);
        name
    }

    /// A fresh temporary.
    pub fn temp(&mut self) -> (name: String)
        requires
            old(self).temps < u32::MAX,
        ensures
            (final(self).code(), name@) == code_temp(old(self).code()),
            final(self).others_kept(*old(self)),
            final(self).marked == old(self).marked,
    {
        self.temps += 1;
        let mut name = crate::chars::owned("%v");
        crate::chars::push_decimal(&mut name, self.temps as u64);
        name
    }

    /// A fresh stack slot for a whole value.
    pub fn slot(&mut self) -> (name: String)
        requires
            old(self).temps < u32::MAX,
        ensures
            (final(self).code(), name@) == code_slot(old(self).code(), "%Value"@),
            final(self).others_kept(*old(self)),
            final(self).marked == old(self).marked,
    {
        self.raw("%Value")
    }

    /// A fresh stack slot of LLVM type `kind`.
    pub fn raw(&mut self, kind: &str) -> (name: String)
        requires
            old(self).temps < u32::MAX,
        ensures
            (final(self).code(), name@) == code_slot(old(self).code(), kind@),
            final(self).others_kept(*old(self)),
            final(self).marked == old(self).marked,
    {
        let name = self.temp();
        let mut made = crate::chars::owned("  ");
        push_str(&mut made, name.as_str());
        push_str(&mut made, " = alloca ");
        push_str(&mut made, kind);
        push_str(&mut made, ", align 8");
        let ghost before = texts(self.allocas@);
        self.allocas.push(made);
        assert(texts(self.allocas@) =~= before.push("  "@ + name@ + " = alloca "@ + kind@ + ", align 8"@));
        name
    }

    /// A pointer to field `index` of the value in `holder`.
    pub fn field_ptr(&mut self, holder: &str, index: u32) -> (name: String)
        requires
            old(self).temps < u32::MAX,
        ensures
            (final(self).code(), name@) == code_field_ptr(old(self).code(), holder@, index),
            final(self).others_kept(*old(self)),
            final(self).marked == old(self).marked,
    {
        let name = self.temp();
        let mut text = crate::chars::owned(name.as_str());
        push_str(&mut text, " = getelementptr inbounds %Value, ptr ");
        push_str(&mut text, holder);
        push_str(&mut text, ", i64 0, i32 ");
        crate::chars::push_decimal(&mut text, index as u64);
        self.line(text.as_str());
        name
    }
}

} // verus!
verus! {

impl<'a> Emitter<'a> {
    fn bits_of(&mut self, repr: Repr, name: String) -> (bits: String)
        requires
            old(self).temps < u32::MAX,
        ensures
            (final(self).code(), bits@) == code_bits(old(self).code(), repr, name@),
            final(self).others_kept(*old(self)),
            final(self).marked == old(self).marked,
            final(self).temps <= old(self).temps + 1,
    {
        match repr {
            Repr::Real => {
                let cast = self.temp();
                let mut text = crate::chars::owned(cast.as_str());
                push_str(&mut text, " = bitcast double ");
                push_str(&mut text, name.as_str());
                push_str(&mut text, " to i64");
                self.line(text.as_str());
                cast
            },
            Repr::Flag => {
                let wide = self.temp();
                let mut text = crate::chars::owned(wide.as_str());
                push_str(&mut text, " = zext i1 ");
                push_str(&mut text, name.as_str());
                push_str(&mut text, " to i64");
                self.line(text.as_str());
                wide
            },
            _ => name,
        }
    }

    /// Boxes a value: a fresh slot with its tag and bits stored.
    pub fn boxed(&mut self, val: Val) -> (holder: String)
        requires
            old(self).temps + 6 <= u32::MAX,
        ensures
            (final(self).code(), holder@) == code_boxed(old(self).code(), val.repr, val.name@),
            final(self).others_kept(*old(self)),
            final(self).marked == old(self).marked,
            final(self).temps <= old(self).temps + 6,
    {
        let Val { repr, name } = val;
        if repr == Repr::Boxed {
            return name;
        }
        let bits = self.bits_of(repr, name);
        let holder = self.slot();
        let tag = self.field_ptr(holder.as_str(), 0);
        let mut text = crate::chars::owned("store i64 ");
        crate::chars::push_decimal(&mut text, repr.tag());
        push_str(&mut text, ", ptr ");
        push_str(&mut text, tag.as_str());
        push_str(&mut text, ", align 8");
        self.line(text.as_str());
        let cell = self.field_ptr(holder.as_str(), 1);
        let mut text = crate::chars::owned("store i64 ");
        push_str(&mut text, bits.as_str());
        push_str(&mut text, ", ptr ");
        push_str(&mut text, cell.as_str());
        push_str(&mut text, ", align 8");
        self.line(text.as_str());
        holder
    }

    /// Reads the bits of the boxed value in `holder` as `want`.
    fn from_box(&mut self, holder: &str, want: Repr) -> (found: String)
        requires
            old(self).temps + 3 <= u32::MAX,
        ensures
            (final(self).code(), found@) == code_from_box(old(self).code(), holder@, want),
            final(self).others_kept(*old(self)),
            final(self).marked == old(self).marked,
            final(self).temps <= old(self).temps + 3,
    {
        let cell = self.field_ptr(holder, 1);
        let bits = self.temp();
        let mut text = crate::chars::owned(bits.as_str());
        push_str(&mut text, " = load i64, ptr ");
        push_str(&mut text, cell.as_str());
        push_str(&mut text, ", align 8");
        self.line(text.as_str());
        match want {
            Repr::Real => {
                let cast = self.temp();
                let mut text = crate::chars::owned(cast.as_str());
                push_str(&mut text, " = bitcast i64 ");
                push_str(&mut text, bits.as_str());
                push_str(&mut text, " to double");
                self.line(text.as_str());
                cast
            },
            Repr::Flag => {
                let test = self.temp();
                let mut text = crate::chars::owned(test.as_str());
                push_str(&mut text, " = icmp ne i64 ");
                push_str(&mut text, bits.as_str());
                push_str(&mut text, ", 0");
                self.line(text.as_str());
                test
            },
            _ => bits,
        }
    }

    /// Converts a value to the representation `want` (see `code_unboxed`).
    pub fn unboxed(&mut self, val: Val, want: Repr) -> (found: String)
        requires
            old(self).temps + 9 <= u32::MAX,
        ensures
            (final(self).code(), found@) == code_unboxed(old(self).code(), val.repr, val.name@, want),
            final(self).others_kept(*old(self)),
            final(self).marked == old(self).marked,
            final(self).temps <= old(self).temps + 9,
    {
        let Val { repr, name } = val;
        if repr == want {
            return name;
        }
        if repr == Repr::Boxed {
            return self.from_box(name.as_str(), want);
        }
        if repr == Repr::Word && want == Repr::Real {
            let cast = self.temp();
            let mut text = crate::chars::owned(cast.as_str());
            push_str(&mut text, " = sitofp i64 ");
            push_str(&mut text, name.as_str());
            push_str(&mut text, " to double");
            self.line(text.as_str());
            return cast;
        }
        if repr == Repr::Word && want == Repr::Flag {
            let test = self.temp();
            let mut text = crate::chars::owned(test.as_str());
            push_str(&mut text, " = icmp ne i64 ");
            push_str(&mut text, name.as_str());
            push_str(&mut text, ", 0");
            self.line(text.as_str());
            return test;
        }
        if repr == Repr::Flag && want == Repr::Word {
            let wide = self.temp();
            let mut text = crate::chars::owned(wide.as_str());
            push_str(&mut text, " = zext i1 ");
            push_str(&mut text, name.as_str());
            push_str(&mut text, " to i64");
            self.line(text.as_str());
            return wide;
        }
        let holder = self.boxed(Val { repr, name });
        self.from_box(holder.as_str(), want)
    }

    /// Tests a value for truth, giving an `i1`.
    pub fn truth(&mut self, val: Val) -> (found: String)
        requires
            old(self).temps + 9 <= u32::MAX,
        ensures
            (final(self).code(), found@) == code_truth(old(self).code(), val.repr, val.name@),
            final(self).others_kept(*old(self)),
            final(self).marked == old(self).marked,
    {
        match val.repr {
            Repr::Flag => val.name,
            Repr::Word => self.unboxed(val, Repr::Flag),
            Repr::Real => {
                let test = self.temp();
                let mut text = crate::chars::owned(test.as_str());
                push_str(&mut text, " = fcmp one double ");
                push_str(&mut text, val.name.as_str());
                push_str(&mut text, ", 0.0");
                self.line(text.as_str());
                test
            },
            Repr::Boxed => {
                let raw = self.temp();
                let mut text = crate::chars::owned(raw.as_str());
                push_str(&mut text, " = call i8 @sr_truthy(ptr ");
                push_str(&mut text, val.name.as_str());
                push_str(&mut text, ")");
                self.line(text.as_str());
                let test = self.temp();
                let mut text = crate::chars::owned(test.as_str());
                push_str(&mut text, " = icmp ne i8 ");
                push_str(&mut text, raw.as_str());
                push_str(&mut text, ", 0");
                self.line(text.as_str());
                test
            },
        }
    }
}

} // verus!
verus! {

/// The name of the constant that holds `text`, the first one made for it.
pub open spec fn constant_named(strings: Seq<(String, String)>, text: Seq<char>) -> Option<Seq<char>>
    decreases strings.len(),
{
    if strings.len() == 0 {
        None
    } else if strings[0].0@ == text {
        Some(strings[0].1@)
    } else {
        constant_named(strings.drop_first(), text)
    }
}

/// The definition of a string constant named `name` that holds `bytes`,
/// `len` of them.
pub open spec fn constant_line(name: Seq<char>, len: nat, bytes: Seq<u8>) -> Seq<char> {
    name + " = private unnamed_addr constant ["@ + crate::chars::decimal(len) + " x i8] c\""@
        + escaped_bytes(bytes) + "\"\n"@
}

/// Where a span is, packed in one word for the run time: the module in
/// the top 16 bits, then 24 bits of line, 12 of column and 12 of width.
pub open spec fn packed_span(module: crate::hir::ModuleId, span: crate::diag::Span) -> u64 {
    let width: usize = if span.end > span.col { (span.end - span.col) as usize } else { 0 };
    let width: usize = if width < 0xFFF { width } else { 0xFFF };
    ((module as u64) << 48u64) | (((span.line as u64) & 0xFF_FFFFu64) << 24u64) | (((span.col as u64)
        & 0xFFFu64) << 12u64) | (width as u64)
}

impl<'a> Emitter<'a> {
    /// A code generator for `program` with the types inferred for it, before
    /// it has written anything.
    pub fn new(program: &'a crate::hir::Program, types: crate::types::Types) -> (made: Emitter<'a>)
        ensures
            made.program == program,
            made.types == types,
            made.strings@.len() == 0,
            made.constants@.len() == 0,
            made.functions@.len() == 0,
            made.body@.len() == 0,
            made.allocas@.len() == 0,
            made.temps == 0,
            made.labels == 0,
            made.loops@.len() == 0,
            made.marked is None,
            made.sites@.len() == 0,
            made.site_count == 0,
            made.module == 0,
            made.current is None,
            !made.frames,
            made.errors@.len() == 0,
    {
        Emitter {
            program,
            types,
            strings: Vec::new(),
            constants: String::new(),
            functions: String::new(),
            body: String::new(),
            allocas: Vec::new(),
            temps: 0,
            labels: 0,
            loops: Vec::new(),
            marked: None,
            sites: String::new(),
            site_count: 0,
            module: 0,
            current: None,
            frames: false,
            errors: Vec::new(),
        }
    }

    /// The global string constant that holds `text`, made the first time
    /// it is asked for, and its length in bytes.
    pub fn constant(&mut self, text: &str) -> (found: (String, usize))
        ensures
            found.1 == text.spec_bytes().len() as usize,
            match constant_named(old(self).strings@, text@) {
                Some(name) => {
                    &&& found.0@ == name
                    &&& final(self).strings == old(self).strings
                    &&& final(self).constants == old(self).constants
                },
                None => {
                    let name = "@.s"@ + crate::chars::decimal(old(self).strings@.len());
                    &&& found.0@ == name
                    &&& final(self).strings@.len() == old(self).strings@.len() + 1
                    &&& final(self).strings@.drop_last() == old(self).strings@
                    &&& final(self).strings@.last().0@ == text@
                    &&& final(self).strings@.last().1@ == name
                    &&& final(self).constants@ == old(self).constants@ + constant_line(name, found.1 as nat, text.spec_bytes())
                },
            },
            final(self).code() == old(self).code(),
            final(self).marked == old(self).marked,
            final(self).labels == old(self).labels,
            final(self).functions == old(self).functions,
            final(self).program == old(self).program,
            final(self).types == old(self).types,
            final(self).module == old(self).module,
            final(self).current == old(self).current,
            final(self).loops == old(self).loops,
            final(self).sites == old(self).sites,
            final(self).site_count == old(self).site_count,
            final(self).frames == old(self).frames,
            final(self).errors == old(self).errors,
    {
        let len = text.len();
        let mut at: usize = 0;
        assert(self.strings@.skip(0) =~= self.strings@);
        while at < self.strings.len()
            invariant
                at <= self.strings@.len(),
                len == text.spec_bytes().len() as usize,
                *self == *old(self),
                constant_named(self.strings@, text@) == constant_named(self.strings@.skip(at as int), text@),
            decreases self.strings@.len() - at,
        {
            assert(self.strings@.skip(at as int).drop_first() =~= self.strings@.skip(at + 1));
            if crate::chars::same_text(self.strings[at].0.as_str(), text) {
                let name = crate::chars::owned(self.strings[at].1.as_str());
                return (name, len);
            }
            at += 1;
        }
        let mut name = crate::chars::owned("@.s");
        crate::chars::push_decimal(&mut name, self.strings.len() as u64);
        push_str(&mut self.constants, name.as_str());
        push_str(&mut self.constants, " = private unnamed_addr constant [");
        crate::chars::push_decimal(&mut self.constants, len as u64);
        push_str(&mut self.constants, " x i8] c\"");
        let shown = escape(text.as_bytes());
        push_str(&mut self.constants, shown.as_str());
        push_str(&mut self.constants, "\"\n");
        self.strings.push((crate::chars::owned(text), crate::chars::owned(name.as_str())));
        assert(self.strings@.drop_last() =~= old(self).strings@);
        (name, len)
    }

    /// Where `span` is, packed for the run time.
    pub fn packed(&self, span: crate::diag::Span) -> (found: u64)
        ensures
            found == packed_span(self.module, span),
    {
        let width: usize = if span.end > span.col { span.end - span.col } else { 0 };
        let width: usize = if width < 0xFFF { width } else { 0xFFF };
        ((self.module as u64) << 48u64) | (((span.line as u64) & 0xFF_FFFFu64) << 24u64) | (((span.col as u64)
            & 0xFFFu64) << 12u64) | (width as u64)
    }

    /// Stores where the program is, unless the block already stored just that.
    pub fn at(&mut self, span: crate::diag::Span)
        ensures
            final(self).others_kept(*old(self)),
            old(self).marked == Some(packed_span(old(self).module, span)) ==> final(self).code() == old(self).code()
                && final(self).marked == old(self).marked,
            old(self).marked != Some(packed_span(old(self).module, span)) ==> final(self).code() == code_line(
                old(self).code(),
                "store i64 "@ + crate::chars::decimal(packed_span(old(self).module, span) as nat) + ", ptr @SR_POS, align 8"@,
            ) && final(self).marked == Some(packed_span(old(self).module, span)),
    {
        let packed = self.packed(span);
        if self.marked == Some(packed) {
            return;
        }
        self.marked = Some(packed);
        let mut text = crate::chars::owned("store i64 ");
        crate::chars::push_decimal(&mut text, packed);
        push_str(&mut text, ", ptr @SR_POS, align 8");
        self.line(text.as_str());
    }

    /// The table of nouns a module passes to the run time, if it has one.
    pub fn nouns_argument(&self, module: crate::hir::ModuleId) -> (found: String)
        requires
            (module as int) < self.program.modules@.len(),
        ensures
            found@ == if self.program.modules@[module as int].nouns@.len() == 0 {
                "ptr null"@
            } else {
                "ptr @nouns_"@ + crate::chars::decimal(module as nat)
            },
    {
        if self.program.modules[module as usize].nouns.len() == 0 {
            crate::chars::owned("ptr null")
        } else {
            let mut found = crate::chars::owned("ptr @nouns_");
            crate::chars::push_decimal(&mut found, module as u64);
            found
        }
    }

    /// A pointer to global `slot` in the table of globals.
    pub fn global_ptr(&mut self, slot: crate::hir::GlobalId) -> (name: String)
        requires
            old(self).temps < u32::MAX,
        ensures
            ({
                let (made, fresh) = code_temp(old(self).code());
                let count = if old(self).program.globals > 1 { old(self).program.globals } else { 1 };
                &&& name@ == fresh
                &&& final(self).code() == code_line(made, fresh + " = getelementptr inbounds ["@
                    + crate::chars::decimal(count as nat) + " x %Value], ptr @globals, i64 0, i64 "@
                    + crate::chars::decimal(slot as nat))
            }),
            final(self).others_kept(*old(self)),
            final(self).marked == old(self).marked,
    {
        let name = self.temp();
        let count = if self.program.globals > 1 { self.program.globals } else { 1 };
        let mut text = crate::chars::owned(name.as_str());
        push_str(&mut text, " = getelementptr inbounds [");
        crate::chars::push_decimal(&mut text, count as u64);
        push_str(&mut text, " x %Value], ptr @globals, i64 0, i64 ");
        crate::chars::push_decimal(&mut text, slot as u64);
        self.line(text.as_str());
        name
    }
}

} // verus!
verus! {

/// The type inferred for a place (see `Types::place`).
pub open spec fn place_ty(types: crate::types::Types, function: Option<crate::hir::FuncId>, place: crate::hir::Place) -> Ty {
    match place {
        crate::hir::Place::Global(slot) => types.globals@[slot as int],
        crate::hir::Place::Local(slot) => match function {
            Some(id) => types.locals@[id as int]@[slot as int],
            None => Ty::Any,
        },
    }
}

/// The code that points at a global's slot.
pub open spec fn code_global_ptr(code: Code, globals: u32, slot: crate::hir::GlobalId) -> (Code, Seq<char>) {
    let (made, fresh) = code_temp(code);
    let count = if globals > 1 { globals } else { 1 };
    (code_line(made, fresh + " = getelementptr inbounds ["@ + crate::chars::decimal(count as nat)
        + " x %Value], ptr @globals, i64 0, i64 "@ + crate::chars::decimal(slot as nat)), fresh)
}

/// The name of a local's slot.
pub open spec fn local_slot(slot: crate::hir::LocalId) -> Seq<char> {
    "%l"@ + crate::chars::decimal(slot as nat)
}

/// Reading a place: a boxed local is its slot; an unboxed local is loaded;
/// a global is found in the table of globals and, unless boxed, read out
/// of its box.
pub open spec fn code_read(code: Code, repr: Repr, globals: u32, place: crate::hir::Place) -> (Code, Seq<char>) {
    match place {
        crate::hir::Place::Local(slot) => if repr == Repr::Boxed {
            (code, local_slot(slot))
        } else {
            let (made, name) = code_temp(code);
            (code_line(made, name + " = load "@ + llvm_name(repr) + ", ptr "@ + local_slot(slot) + ", align 8"@), name)
        },
        crate::hir::Place::Global(slot) => {
            let (made, holder) = code_global_ptr(code, globals, slot);
            if repr == Repr::Boxed {
                (made, holder)
            } else {
                code_unboxed(made, Repr::Boxed, holder, repr)
            }
        },
    }
}

/// Writing a value into a place: a boxed place is copied into; an
/// unboxed local is stored; an unboxed global's box gets the tag and bits.
pub open spec fn code_write(code: Code, repr: Repr, globals: u32, place: crate::hir::Place, val: Repr, name: Seq<char>) -> Code {
    match place {
        crate::hir::Place::Local(slot) => if repr == Repr::Boxed {
            let (made, source) = code_boxed(code, val, name);
            code_line(made, "call void @sr_copy(ptr "@ + local_slot(slot) + ", ptr "@ + source + ")"@)
        } else {
            let (made, found) = code_unboxed(code, val, name, repr);
            code_line(made, "store "@ + llvm_name(repr) + " "@ + found + ", ptr "@ + local_slot(slot) + ", align 8"@)
        },
        crate::hir::Place::Global(slot) => {
            let (c1, holder) = code_global_ptr(code, globals, slot);
            if repr == Repr::Boxed {
                let (c2, source) = code_boxed(c1, val, name);
                code_line(c2, "call void @sr_copy(ptr "@ + holder + ", ptr "@ + source + ")"@)
            } else {
                let (c2, found) = code_unboxed(c1, val, name, repr);
                let (c3, bits) = code_bits(c2, repr, found);
                let (c4, tag) = code_field_ptr(c3, holder, 0);
                let c5 = code_line(c4, "store i64 "@ + crate::chars::decimal(repr_tag(repr)) + ", ptr "@ + tag + ", align 8"@);
                let (c6, cell) = code_field_ptr(c5, holder, 1);
                code_line(c6, "store i64 "@ + bits + ", ptr "@ + cell + ", align 8"@)
            }
        },
    }
}

impl<'a> Emitter<'a> {
    /// The inferred types know `place` in the function being written.
    pub open spec fn knows(&self, place: crate::hir::Place) -> bool {
        match place {
            crate::hir::Place::Global(slot) => (slot as int) < self.types.globals@.len(),
            crate::hir::Place::Local(slot) => self.current matches Some(id) ==> (id as int) < self.types.locals@.len()
                && (slot as int) < self.types.locals@[id as int]@.len(),
        }
    }

    fn place_repr(&self, place: crate::hir::Place) -> (found: Repr)
        requires
            self.knows(place),
        ensures
            found == repr_of(place_ty(self.types, self.current, place)),
    {
        Repr::of(self.types.place(self.current, place))
    }

    /// How a local of the function being written is held.
    pub fn local_repr(&self, slot: crate::hir::LocalId) -> (found: Repr)
        requires
            self.knows(crate::hir::Place::Local(slot)),
        ensures
            found == repr_of(place_ty(self.types, self.current, crate::hir::Place::Local(slot))),
    {
        self.place_repr(crate::hir::Place::Local(slot))
    }

    fn local_name(slot: crate::hir::LocalId) -> (name: String)
        ensures
            name@ == local_slot(slot),
    {
        let mut name = crate::chars::owned("%l");
        crate::chars::push_decimal(&mut name, slot as u64);
        name
    }

    /// Reads a place (see `code_read`).
    pub fn read_place(&mut self, place: crate::hir::Place) -> (found: Val)
        requires
            old(self).knows(place),
            old(self).temps + 12 <= u32::MAX,
        ensures
            found.repr == repr_of(place_ty(old(self).types, old(self).current, place)),
            (final(self).code(), found.name@) == code_read(old(self).code(), found.repr, old(self).program.globals, place),
            final(self).others_kept(*old(self)),
            final(self).marked == old(self).marked,
    {
        let repr = self.place_repr(place);
        match place {
            crate::hir::Place::Local(slot) => {
                if repr == Repr::Boxed {
                    return Val { repr, name: Self::local_name(slot) };
                }
                let name = self.temp();
                let mut text = crate::chars::owned(name.as_str());
                push_str(&mut text, " = load ");
                push_str(&mut text, repr.llvm());
                push_str(&mut text, ", ptr ");
                let local = Self::local_name(slot);
                push_str(&mut text, local.as_str());
                push_str(&mut text, ", align 8");
                self.line(text.as_str());
                Val { repr, name }
            },
            crate::hir::Place::Global(slot) => {
                let holder = self.global_ptr(slot);
                if repr == Repr::Boxed {
                    return Val { repr, name: holder };
                }
                self.unboxed_from(holder.as_str(), repr)
            },
        }
    }

    /// The value in the box at `holder`, read as `repr`.
    pub fn unboxed_from(&mut self, holder: &str, repr: Repr) -> (found: Val)
        requires
            old(self).temps + 9 <= u32::MAX,
        ensures
            found.repr == repr,
            (final(self).code(), found.name@) == code_unboxed(old(self).code(), Repr::Boxed, holder@, repr),
            final(self).others_kept(*old(self)),
            final(self).marked == old(self).marked,
    {
        let boxed = Val { repr: Repr::Boxed, name: crate::chars::owned(holder) };
        let name = self.unboxed(boxed, repr);
        Val { repr, name }
    }

    /// Writes a value into a place (see `code_write`).
    pub fn write_place(&mut self, place: crate::hir::Place, val: Val)
        requires
            old(self).knows(place),
            old(self).temps + 24 <= u32::MAX,
        ensures
            final(self).code() == code_write(
                old(self).code(),
                repr_of(place_ty(old(self).types, old(self).current, place)),
                old(self).program.globals,
                place,
                val.repr,
                val.name@,
            ),
            final(self).others_kept(*old(self)),
            final(self).marked == old(self).marked,
    {
        let repr = self.place_repr(place);
        match place {
            crate::hir::Place::Local(slot) => {
                let local = Self::local_name(slot);
                if repr == Repr::Boxed {
                    let source = self.boxed(val);
                    let mut text = crate::chars::owned("call void @sr_copy(ptr ");
                    push_str(&mut text, local.as_str());
                    push_str(&mut text, ", ptr ");
                    push_str(&mut text, source.as_str());
                    push_str(&mut text, ")");
                    self.line(text.as_str());
                    return;
                }
                let found = self.unboxed(val, repr);
                let mut text = crate::chars::owned("store ");
                push_str(&mut text, repr.llvm());
                push_str(&mut text, " ");
                push_str(&mut text, found.as_str());
                push_str(&mut text, ", ptr ");
                push_str(&mut text, local.as_str());
                push_str(&mut text, ", align 8");
                self.line(text.as_str());
            },
            crate::hir::Place::Global(slot) => {
                let holder = self.global_ptr(slot);
                if repr == Repr::Boxed {
                    let source = self.boxed(val);
                    let mut text = crate::chars::owned("call void @sr_copy(ptr ");
                    push_str(&mut text, holder.as_str());
                    push_str(&mut text, ", ptr ");
                    push_str(&mut text, source.as_str());
                    push_str(&mut text, ")");
                    self.line(text.as_str());
                    return;
                }
                let found = self.unboxed(val, repr);
                let bits = self.bits_of(repr, found);
                let tag = self.field_ptr(holder.as_str(), 0);
                let mut text = crate::chars::owned("store i64 ");
                crate::chars::push_decimal(&mut text, repr.tag());
                push_str(&mut text, ", ptr ");
                push_str(&mut text, tag.as_str());
                push_str(&mut text, ", align 8");
                self.line(text.as_str());
                let cell = self.field_ptr(holder.as_str(), 1);
                let mut text = crate::chars::owned("store i64 ");
                push_str(&mut text, bits.as_str());
                push_str(&mut text, ", ptr ");
                push_str(&mut text, cell.as_str());
                push_str(&mut text, ", align 8");
                self.line(text.as_str());
            },
        }
    }
}

} // verus!
verus! {

impl<'a> Emitter<'a> {
    /// How a function of the program returns and takes its arguments.
    pub fn signature(&self, id: crate::hir::FuncId) -> (found: (Repr, Vec<Repr>))
        requires
            (id as int) < self.program.functions@.len(),
            (id as int) < self.types.returns@.len(),
            (id as int) < self.types.locals@.len(),
            forall|k: int| 0 <= k < self.program.functions@[id as int].params@.len()
                ==> (#[trigger] self.program.functions@[id as int].params@[k] as int) < self.types.locals@[id as int]@.len(),
        ensures
            found.0 == repr_of(self.types.returns@[id as int]),
            found.1@ == Seq::new(
                self.program.functions@[id as int].params@.len(),
                |k: int| repr_of(self.types.locals@[id as int]@[self.program.functions@[id as int].params@[k] as int]),
            ),
    {
        let function = &self.program.functions[id as usize];
        let ret = Repr::of(self.types.returns[id as usize]);
        let mut params: Vec<Repr> = Vec::new();
        let mut k: usize = 0;
        while k < function.params.len()
            invariant
                k <= function.params@.len(),
                *function == self.program.functions@[id as int],
                (id as int) < self.types.locals@.len(),
                forall|j: int| 0 <= j < function.params@.len()
                    ==> (#[trigger] function.params@[j] as int) < self.types.locals@[id as int]@.len(),
                params@.len() == k,
                forall|j: int| 0 <= j < k ==> params@[j] == repr_of(self.types.locals@[id as int]@[function.params@[j] as int]),
            decreases function.params@.len() - k,
        {
            let slot = function.params[k];
            params.push(Repr::of(self.types.locals[id as usize][slot as usize]));
            k += 1;
        }
        assert(params@ =~= Seq::new(
            self.program.functions@[id as int].params@.len(),
            |k: int| repr_of(self.types.locals@[id as int]@[self.program.functions@[id as int].params@[k] as int]),
        ));
        (ret, params)
    }
}

} // verus!
verus! {

/// The code that enters a frame for the site `site`, at the position
/// `here`: the depth is loaded, the site and position stored in the ring
/// of frames, and the depth raised.
pub open spec fn code_enter(code: Code, site: Seq<char>, here: Seq<char>) -> (Code, Seq<char>) {
    let (c1, depth) = code_temp(code);
    let c2 = code_line(c1, depth + " = load i32, ptr @SR_DEPTH, align 4"@);
    let (c3, wrapped) = code_temp(c2);
    let c4 = code_line(c3, wrapped + " = and i32 "@ + depth + ", 1023"@);
    let (c5, cell) = code_temp(c4);
    let c6 = code_line(c5, cell + " = getelementptr inbounds [1024 x ptr], ptr @SR_FRAMES, i64 0, i32 "@ + wrapped);
    let c7 = code_line(c6, "store ptr "@ + site + ", ptr "@ + cell + ", align 8"@);
    let (c8, mark) = code_temp(c7);
    let c9 = code_line(c8, mark + " = getelementptr inbounds [1024 x i64], ptr @SR_AT, i64 0, i32 "@ + wrapped);
    let c10 = code_line(c9, "store i64 "@ + here + ", ptr "@ + mark + ", align 8"@);
    let (c11, next) = code_temp(c10);
    let c12 = code_line(c11, next + " = add i32 "@ + depth + ", 1"@);
    (code_line(c12, "store i32 "@ + next + ", ptr @SR_DEPTH, align 4"@), depth)
}

/// How a function's code ends: `ret void` for a boxed result (it is
/// written through a pointer), else a zero of its type.
pub open spec fn ret_line(ret: Repr) -> Seq<char> {
    if ret == Repr::Boxed {
        "  ret void"@
    } else {
        "  ret "@ + llvm_name(ret) + " "@ + match ret {
            Repr::Word => "0"@,
            Repr::Real => "0x0000000000000000"@,
            Repr::Flag => "false"@,
            Repr::Boxed => "null"@,
        }
    }
}

/// The slots of a function, a line each.
pub open spec fn slot_lines(allocas: Seq<Seq<char>>) -> Seq<char>
    decreases allocas.len(),
{
    if allocas.len() == 0 {
        seq![]
    } else {
        slot_lines(allocas.drop_last()) + allocas.last() + "\n"@
    }
}

impl<'a> Emitter<'a> {
    /// Starts a function of `module`: no code, no slots, no temporaries,
    /// no position stored, no open loop.
    pub fn open(&mut self, module: crate::hir::ModuleId)
        ensures
            final(self).body@.len() == 0,
            final(self).allocas@.len() == 0,
            final(self).temps == 0,
            final(self).module == module,
            final(self).marked is None,
            final(self).loops@.len() == 0,
            final(self).program == old(self).program,
            final(self).types == old(self).types,
            final(self).strings == old(self).strings,
            final(self).constants == old(self).constants,
            final(self).functions == old(self).functions,
            final(self).labels == old(self).labels,
            final(self).sites == old(self).sites,
            final(self).site_count == old(self).site_count,
            final(self).current == old(self).current,
            final(self).frames == old(self).frames,
            final(self).errors == old(self).errors,
    {
        self.body = String::new();
        self.allocas = Vec::new();
        self.temps = 0;
        self.module = module;
        self.marked = None;
        self.loops = Vec::new();
    }

    /// Ends a function: its header, its slots, the prologue and the body
    /// written, and the return that ends it go to the finished functions.
    pub fn close(&mut self, header: &str, prologue: &str, ret: Repr)
        ensures
            final(self).functions@ == old(self).functions@ + header@ + " {\nentry:\n"@
                + slot_lines(texts(old(self).allocas@)) + prologue@ + old(self).body@ + ret_line(ret) + "\n}\n\n"@,
            final(self).code() == old(self).code(),
            final(self).others_kept_but_functions(*old(self)),
            final(self).marked == old(self).marked,
    {
        push_str(&mut self.functions, header);
        push_str(&mut self.functions, " {\nentry:\n");
        let ghost start = self.functions@;
        let mut at: usize = 0;
        assert(texts(self.allocas@).take(0) =~= Seq::<Seq<char>>::empty());
        while at < self.allocas.len()
            invariant
                at <= self.allocas@.len(),
                self.allocas == old(self).allocas,
                self.body == old(self).body,
                self.temps == old(self).temps,
                self.marked == old(self).marked,
                self.others_kept_but_functions(*old(self)),
                start == old(self).functions@ + header@ + " {\nentry:\n"@,
                self.functions@ == start + slot_lines(texts(self.allocas@).take(at as int)),
            decreases self.allocas@.len() - at,
        {
            assert(texts(self.allocas@).take(at + 1).drop_last() =~= texts(self.allocas@).take(at as int));
            let line = crate::chars::owned(self.allocas[at].as_str());
            push_str(&mut self.functions, line.as_str());
            push_str(&mut self.functions, "\n");
            at += 1;
        }
        assert(texts(self.allocas@).take(self.allocas@.len() as int) =~= texts(self.allocas@));
        push_str(&mut self.functions, prologue);
        let body = crate::chars::owned(self.body.as_str());
        push_str(&mut self.functions, body.as_str());
        if ret == Repr::Boxed {
            push_str(&mut self.functions, "  ret void");
        } else {
            push_str(&mut self.functions, "  ret ");
            push_str(&mut self.functions, ret.llvm());
            push_str(&mut self.functions, " ");
            push_str(&mut self.functions, ret.zero());
        }
        push_str(&mut self.functions, "\n}\n\n");
    }

    /// All but the finished functions stay.
    pub open spec fn others_kept_but_functions(&self, before: Emitter<'a>) -> bool {
        &&& self.program == before.program
        &&& self.types == before.types
        &&& self.strings == before.strings
        &&& self.constants == before.constants
        &&& self.labels == before.labels
        &&& self.loops == before.loops
        &&& self.sites == before.sites
        &&& self.site_count == before.site_count
        &&& self.module == before.module
        &&& self.current == before.current
        &&& self.frames == before.frames
        &&& self.errors == before.errors
    }
}

} // verus!
verus! {

/// Entering a frame at `at`, or where the program last stored it.
pub open spec fn code_enter_at(code: Code, site: Seq<char>, at: Option<crate::diag::Span>, module: crate::hir::ModuleId) -> (Code, Seq<char>) {
    match at {
        Some(span) => code_enter(code, site, crate::chars::decimal(packed_span(module, span) as nat)),
        None => {
            let (c1, loaded) = code_temp(code);
            code_enter(code_line(c1, loaded + " = load i64, ptr @SR_POS, align 8"@), site, loaded)
        },
    }
}

/// The name of the constant that holds `text` once it is made.
pub open spec fn constant_name(strings: Seq<(String, String)>, text: Seq<char>) -> Seq<char> {
    match constant_named(strings, text) {
        Some(name) => name,
        None => "@.s"@ + crate::chars::decimal(strings.len()),
    }
}

impl<'a> Emitter<'a> {
    /// When frames are kept, enters the frame of function `name`: a site
    /// that names it, and the code that pushes it with its position; gives
    /// the depth loaded, for the code that pops the frame.
    pub fn enter(&mut self, name: &str, at: Option<crate::diag::Span>) -> (found: Option<String>)
        requires
            old(self).temps + 8 <= u32::MAX,
            old(self).site_count < u32::MAX,
        ensures
            !old(self).frames ==> found is None && *final(self) == *old(self),
            old(self).frames ==> {
                let text = constant_name(old(self).strings@, name@);
                let len = name.spec_bytes().len() as usize;
                let site = "@.site"@ + crate::chars::decimal(old(self).site_count as nat);
                let (code, depth) = code_enter_at(old(self).code(), site, at, old(self).module);
                &&& found matches Some(d) && d@ == depth
                &&& final(self).code() == code
                &&& final(self).site_count == old(self).site_count + 1
                &&& final(self).sites@ == old(self).sites@ + site + " = private constant %Site { ptr "@ + text
                    + ", i64 "@ + crate::chars::decimal(len as nat) + " }\n"@
                &&& constant_named(old(self).strings@, name@) is Some ==> final(self).strings == old(self).strings
                    && final(self).constants == old(self).constants
                &&& constant_named(old(self).strings@, name@) is None ==> {
                    &&& final(self).strings@.drop_last() == old(self).strings@
                    &&& final(self).strings@.last().0@ == name@
                    &&& final(self).strings@.last().1@ == text
                    &&& final(self).constants@ == old(self).constants@ + constant_line(text, len as nat, name.spec_bytes())
                }
            },
            final(self).marked == old(self).marked,
            final(self).program == old(self).program,
            final(self).types == old(self).types,
            final(self).functions == old(self).functions,
            final(self).labels == old(self).labels,
            final(self).loops == old(self).loops,
            final(self).module == old(self).module,
            final(self).current == old(self).current,
            final(self).frames == old(self).frames,
            final(self).errors == old(self).errors,
            final(self).temps <= old(self).temps + 6,
            final(self).site_count <= old(self).site_count + 1,
    {
        if !self.frames {
            return None;
        }
        let (text, len) = self.constant(name);
        let mut site = crate::chars::owned("@.site");
        crate::chars::push_decimal(&mut site, self.site_count as u64);
        self.site_count += 1;
        push_str(&mut self.sites, site.as_str());
        push_str(&mut self.sites, " = private constant %Site { ptr ");
        push_str(&mut self.sites, text.as_str());
        push_str(&mut self.sites, ", i64 ");
        crate::chars::push_decimal(&mut self.sites, len as u64);
        push_str(&mut self.sites, " }\n");
        let here = match at {
            Some(span) => {
                let mut shown = String::new();
                crate::chars::push_decimal(&mut shown, self.packed(span));
                shown
            },
            None => {
                let loaded = self.temp();
                let mut text = crate::chars::owned(loaded.as_str());
                push_str(&mut text, " = load i64, ptr @SR_POS, align 8");
                self.line(text.as_str());
                loaded
            },
        };
        let depth = self.temp();
        let mut text = crate::chars::owned(depth.as_str());
        push_str(&mut text, " = load i32, ptr @SR_DEPTH, align 4");
        self.line(text.as_str());
        let wrapped = self.temp();
        let mut text = crate::chars::owned(wrapped.as_str());
        push_str(&mut text, " = and i32 ");
        push_str(&mut text, depth.as_str());
        push_str(&mut text, ", 1023");
        self.line(text.as_str());
        let cell = self.temp();
        let mut text = crate::chars::owned(cell.as_str());
        push_str(&mut text, " = getelementptr inbounds [1024 x ptr], ptr @SR_FRAMES, i64 0, i32 ");
        push_str(&mut text, wrapped.as_str());
        self.line(text.as_str());
        let mut text = crate::chars::owned("store ptr ");
        push_str(&mut text, site.as_str());
        push_str(&mut text, ", ptr ");
        push_str(&mut text, cell.as_str());
        push_str(&mut text, ", align 8");
        self.line(text.as_str());
        let mark = self.temp();
        let mut text = crate::chars::owned(mark.as_str());
        push_str(&mut text, " = getelementptr inbounds [1024 x i64], ptr @SR_AT, i64 0, i32 ");
        push_str(&mut text, wrapped.as_str());
        self.line(text.as_str());
        let mut text = crate::chars::owned("store i64 ");
        push_str(&mut text, here.as_str());
        push_str(&mut text, ", ptr ");
        push_str(&mut text, mark.as_str());
        push_str(&mut text, ", align 8");
        self.line(text.as_str());
        let next = self.temp();
        let mut text = crate::chars::owned(next.as_str());
        push_str(&mut text, " = add i32 ");
        push_str(&mut text, depth.as_str());
        push_str(&mut text, ", 1");
        self.line(text.as_str());
        let mut text = crate::chars::owned("store i32 ");
        push_str(&mut text, next.as_str());
        push_str(&mut text, ", ptr @SR_DEPTH, align 4");
        self.line(text.as_str());
        Some(depth)
    }
}

} // verus!
verus! {

/// The run-time functions and globals the generated code declares.
pub const DECLARES: &'static str = "declare void @sr_nothing(ptr)
declare void @sr_int(ptr, i64)
declare void @sr_float(ptr, double)
declare void @sr_bool(ptr, i8)
declare void @sr_str(ptr, ptr, i64)
declare void @sr_copy(ptr, ptr)
declare i8 @sr_truthy(ptr)
declare void @sr_truthy_value(ptr, ptr)
declare void @sr_list_new(ptr)
declare void @sr_list_push(ptr, ptr)
declare i64 @sr_list_len(ptr)
declare void @sr_list_get(ptr, ptr, i64)
declare void @sr_dict_new(ptr)
declare void @sr_dict_put(ptr, ptr, i64, ptr)
declare void @sr_template(ptr, ptr, i64)
declare void @sr_field_get(ptr, ptr, ptr, i64, ptr)
declare void @sr_field_set(ptr, ptr, i64, ptr)
declare void @sr_index(ptr, ptr, ptr)
declare void @sr_range(ptr, ptr, ptr, ptr)
declare i8 @sr_name_is(ptr, i64, ptr, i64)
declare void @sr_print(ptr)
declare void @sr_add(ptr, ptr, ptr)
declare void @sr_add_copy(ptr, ptr, ptr)
declare void @sr_sub(ptr, ptr, ptr)
declare void @sr_mul(ptr, ptr, ptr)
declare void @sr_div(ptr, ptr, ptr)
declare void @sr_rem(ptr, ptr, ptr)
declare void @sr_greater(ptr, ptr, ptr)
declare void @sr_less(ptr, ptr, ptr)
declare void @sr_equal(ptr, ptr, ptr)
declare void @sr_not(ptr, ptr)
declare void @sr_convert(ptr, ptr, ptr)
declare void @sr_check_bool(ptr, ptr, i64)
declare void @sr_check_value(ptr, ptr, i64)
declare void @sr_read(ptr, ptr, ptr)
declare void @sr_open(ptr, ptr, ptr)
declare void @sr_write(ptr, ptr, ptr)
declare void @sr_close(ptr)
declare void @sr_stop(ptr)
declare void @sr_clone(ptr, ptr)
declare void @sr_finish()
declare void @sr_sources(ptr, i64, i8)
@SR_POS = external global i64
@SR_FRAMES = external global [1024 x ptr]
@SR_AT = external global [1024 x i64]
@SR_DEPTH = external global i32
";

/// The string constants by their texts.
pub open spec fn pairs(strings: Seq<(String, String)>) -> Seq<(Seq<char>, Seq<char>)> {
    Seq::new(strings.len(), |i: int| (strings[i].0@, strings[i].1@))
}

pub open spec fn named_in(held: Seq<(Seq<char>, Seq<char>)>, text: Seq<char>) -> Option<Seq<char>>
    decreases held.len(),
{
    if held.len() == 0 {
        None
    } else if held[0].0 == text {
        Some(held[0].1)
    } else {
        named_in(held.drop_first(), text)
    }
}

/// Asking for the constant of `text`: what the constants become, and its
/// name.
pub open spec fn after_constant(
    held: Seq<(Seq<char>, Seq<char>)>,
    constants: Seq<char>,
    text: Seq<char>,
) -> (Seq<(Seq<char>, Seq<char>)>, Seq<char>, Seq<char>) {
    match named_in(held, text) {
        Some(name) => (held, constants, name),
        None => {
            let name = "@.s"@ + crate::chars::decimal(held.len());
            let bytes = vstd::utf8::encode_utf8(text);
            (held.push((text, name)), constants + constant_line(name, (bytes.len() as usize) as nat, bytes), name)
        },
    }
}

/// The byte length of a text, as `str::len` gives it.
pub open spec fn text_len(text: Seq<char>) -> nat {
    (vstd::utf8::encode_utf8(text).len() as usize) as nat
}

/// The table of sources: for each of the first `k` modules, the constants
/// of its path and of its text and an entry that points at them.
pub open spec fn sources_upto(
    held: Seq<(Seq<char>, Seq<char>)>,
    constants: Seq<char>,
    modules: Seq<crate::hir::Module>,
    k: int,
) -> (Seq<(Seq<char>, Seq<char>)>, Seq<char>, Seq<Seq<char>>)
    decreases k,
{
    if k <= 0 {
        (held, constants, Seq::empty())
    } else {
        let (h1, c1, entries) = sources_upto(held, constants, modules, k - 1);
        let module = modules[k - 1];
        let (h2, c2, path) = after_constant(h1, c1, module.path@);
        let (h3, c3, text) = after_constant(h2, c2, module.source@);
        (h3, c3, entries.push("%Source { ptr "@ + path + ", i64 "@ + crate::chars::decimal(text_len(module.path@))
            + ", ptr "@ + text + ", i64 "@ + crate::chars::decimal(text_len(module.source@)) + " }"@))
    }
}

/// Texts joined with `, `.
pub open spec fn joined_with_commas(entries: Seq<Seq<char>>) -> Seq<char>
    decreases entries.len(),
{
    if entries.len() == 0 {
        seq![]
    } else if entries.len() == 1 {
        entries[0]
    } else {
        joined_with_commas(entries.drop_last()) + ", "@ + entries.last()
    }
}

/// The calls of the modules' top levels, in load order.
pub open spec fn module_calls(order: Seq<crate::hir::ModuleId>) -> Seq<char>
    decreases order.len(),
{
    if order.len() == 0 {
        seq![]
    } else {
        module_calls(order.drop_last()) + "  call void @mod_"@ + crate::chars::decimal(order.last() as nat) + "()\n"@
    }
}

/// The whole LLVM module: the target, the types, the globals, the
/// constants and frame sites, the table of sources, the run-time
/// declarations, the functions, and `main`, which registers the sources
/// and runs each module's top level in load order.
pub open spec fn module_text(
    triple: Seq<char>,
    globals: u32,
    constants: Seq<char>,
    sites: Seq<char>,
    entries: Seq<Seq<char>>,
    functions: Seq<char>,
    frames: bool,
    order: Seq<crate::hir::ModuleId>,
) -> Seq<char> {
    let count = crate::chars::decimal(entries.len());
    (if vstd::utf8::encode_utf8(triple).len() as usize == 0 { seq![] } else { "target triple = \""@ + triple + "\"\n\n"@ })
        + "%Value = type { i64, i64 }\n%Source = type { ptr, i64, ptr, i64 }\n%Site = type { ptr, i64 }\n\n"@
        + "@globals = internal global ["@ + crate::chars::decimal((if globals > 1 { globals } else { 1 }) as nat)
        + " x %Value] zeroinitializer\n\n"@ + constants + sites + "@sources = internal constant ["@ + count
        + " x %Source] ["@ + joined_with_commas(entries) + "]\n"@ + "\n"@ + DECLARES@ + "\n"@ + functions
        + "define i32 @main() {\nentry:\n"@ + "  call void @sr_sources(ptr @sources, i64 "@ + count + ", i8 "@
        + crate::chars::decimal(if frames { 1nat } else { 0nat }) + ")\n"@ + module_calls(order) + "  call void @sr_finish()\n"@
        + "  ret i32 0\n}\n"@
}

proof fn lemma_named(strings: Seq<(String, String)>, text: Seq<char>)
    ensures
        constant_named(strings, text) == named_in(pairs(strings), text),
    decreases strings.len(),
{
    if strings.len() > 0 {
        assert(pairs(strings).drop_first() =~= pairs(strings.drop_first()));
        lemma_named(strings.drop_first(), text);
    }
}

impl<'a> Emitter<'a> {
    /// Asks for the constant of `text` (see `constant`), told over the
    /// texts of the constants.
    fn constant_of(&mut self, text: &str) -> (found: (String, usize))
        ensures
            (pairs(final(self).strings@), final(self).constants@, found.0@)
                == after_constant(pairs(old(self).strings@), old(self).constants@, text@),
            found.1 as nat == text_len(text@),
            final(self).code() == old(self).code(),
            final(self).marked == old(self).marked,
            final(self).labels == old(self).labels,
            final(self).functions == old(self).functions,
            final(self).program == old(self).program,
            final(self).types == old(self).types,
            final(self).module == old(self).module,
            final(self).current == old(self).current,
            final(self).loops == old(self).loops,
            final(self).sites == old(self).sites,
            final(self).site_count == old(self).site_count,
            final(self).frames == old(self).frames,
            final(self).errors == old(self).errors,
    {
        proof {
            lemma_named(self.strings@, text@);
        }
        let found = self.constant(text);
        proof {
            if constant_named(old(self).strings@, text@) is None {
                assert(pairs(self.strings@) =~= pairs(old(self).strings@).push((text@, found.0@)));
            }
        }
        found
    }

    /// The whole LLVM module, once every function is written: the
    /// constants of the sources' paths and texts are made first.
    pub fn finish(&mut self, triple: &str) -> (out: String)
        ensures
            ({
                let (held, constants, entries) = sources_upto(
                    pairs(old(self).strings@),
                    old(self).constants@,
                    old(self).program.modules@,
                    old(self).program.modules@.len() as int,
                );
                &&& pairs(final(self).strings@) == held
                &&& final(self).constants@ == constants
                &&& out@ == module_text(
                    triple@,
                    old(self).program.globals,
                    constants,
                    old(self).sites@,
                    entries,
                    old(self).functions@,
                    old(self).frames,
                    old(self).program.order@,
                )
            }),
    {
        let traced: u64 = if self.frames { 1 } else { 0 };
        let mut table: Vec<String> = Vec::new();
        let mut id: usize = 0;
        while id < self.program.modules.len()
            invariant
                id <= self.program.modules@.len(),
                self.program == old(self).program,
                self.sites == old(self).sites,
                self.functions == old(self).functions,
                self.frames == old(self).frames,
                traced == (if self.frames { 1u64 } else { 0u64 }),
                ({
                    let (held, constants, entries) = sources_upto(
                        pairs(old(self).strings@),
                        old(self).constants@,
                        self.program.modules@,
                        id as int,
                    );
                    &&& pairs(self.strings@) == held
                    &&& self.constants@ == constants
                    &&& texts(table@) == entries
                }),
            decreases self.program.modules@.len() - id,
        {
            let module = &self.program.modules[id];
            let (path, path_len) = self.constant_of(module.path.as_str());
            let (text, text_len) = self.constant_of(module.source.as_str());
            let mut entry = crate::chars::owned("%Source { ptr ");
            push_str(&mut entry, path.as_str());
            push_str(&mut entry, ", i64 ");
            crate::chars::push_decimal(&mut entry, path_len as u64);
            push_str(&mut entry, ", ptr ");
            push_str(&mut entry, text.as_str());
            push_str(&mut entry, ", i64 ");
            crate::chars::push_decimal(&mut entry, text_len as u64);
            push_str(&mut entry, " }");
            let ghost before = texts(table@);
            table.push(entry);
            assert(texts(table@) =~= before.push(entry@));
            id += 1;
        }
        let count = table.len();
        let ghost mid = *self;
        let ghost made = texts(table@);
        let mut out = String::new();
        if triple.len() > 0 {
            push_str(&mut out, "target triple = \"");
            push_str(&mut out, triple);
            push_str(&mut out, "\"\n\n");
        }
        assert(out@ == (if vstd::utf8::encode_utf8(triple@).len() as usize == 0 { Seq::<char>::empty() } else { "target triple = \""@ + triple@ + "\"\n\n"@ }));
        let ghost head = out@;
        push_str(&mut out, "%Value = type { i64, i64 }\n%Source = type { ptr, i64, ptr, i64 }\n%Site = type { ptr, i64 }\n\n");
        push_str(&mut out, "@globals = internal global [");
        let globals = if self.program.globals > 1 { self.program.globals } else { 1 };
        crate::chars::push_decimal(&mut out, globals as u64);
        push_str(&mut out, " x %Value] zeroinitializer\n\n");
        let constants = crate::chars::owned(self.constants.as_str());
        push_str(&mut out, constants.as_str());
        let sites = crate::chars::owned(self.sites.as_str());
        push_str(&mut out, sites.as_str());
        push_str(&mut out, "@sources = internal constant [");
        crate::chars::push_decimal(&mut out, count as u64);
        push_str(&mut out, " x %Source] [");
        let mut k: usize = 0;
        let ghost start = out@;
        assert(texts(table@).take(0) =~= Seq::<Seq<char>>::empty());
        while k < table.len()
            invariant
                k <= table@.len(),
                *self == mid,
                made == texts(table@),
                out@ == start + joined_with_commas(texts(table@).take(k as int)),
            decreases table@.len() - k,
        {
            assert(texts(table@).take(k + 1).drop_last() =~= texts(table@).take(k as int));
            if k > 0 {
                push_str(&mut out, ", ");
            }
            push_str(&mut out, table[k].as_str());
            k += 1;
        }
        assert(texts(table@).take(table@.len() as int) =~= texts(table@));
        assert(out@ == start + joined_with_commas(made));
        push_str(&mut out, "]\n");
        push_str(&mut out, "\n");
        push_str(&mut out, DECLARES);
        push_str(&mut out, "\n");
        let functions = crate::chars::owned(self.functions.as_str());
        push_str(&mut out, functions.as_str());
        push_str(&mut out, "define i32 @main() {\nentry:\n");
        push_str(&mut out, "  call void @sr_sources(ptr @sources, i64 ");
        crate::chars::push_decimal(&mut out, count as u64);
        push_str(&mut out, ", i8 ");
        crate::chars::push_decimal(&mut out, traced);
        push_str(&mut out, ")\n");
        let ghost calls_start = out@;
        let mut at: usize = 0;
        assert(self.program.order@.take(0) =~= Seq::<crate::hir::ModuleId>::empty());
        while at < self.program.order.len()
            invariant
                at <= self.program.order@.len(),
                *self == mid,
                out@ == calls_start + module_calls(self.program.order@.take(at as int)),
            decreases self.program.order@.len() - at,
        {
            assert(self.program.order@.take(at + 1).drop_last() =~= self.program.order@.take(at as int));
            push_str(&mut out, "  call void @mod_");
            crate::chars::push_decimal(&mut out, self.program.order[at] as u64);
            push_str(&mut out, "()\n");
            at += 1;
        }
        assert(self.program.order@.take(self.program.order@.len() as int) =~= self.program.order@);
        push_str(&mut out, "  call void @sr_finish()\n");
        push_str(&mut out, "  ret i32 0\n}\n");
        proof {
            let (held, constants, entries) = sources_upto(
                pairs(old(self).strings@),
                old(self).constants@,
                old(self).program.modules@,
                old(self).program.modules@.len() as int,
            );
            assert(entries == made);
            assert(constants == mid.constants@);
            assert(made.len() == count);
            assert(out@ =~= module_text(
                triple@,
                old(self).program.globals,
                constants,
                old(self).sites@,
                entries,
                old(self).functions@,
                old(self).frames,
                old(self).program.order@,
            ));
        }
        out
    }
}

} // verus!
verus! {

/// What the writing of code changes: the code of the body, the label
/// counter, the last position stored, the string constants (by text) and
/// their definitions, and the frame sites with their counter.
pub struct EmitView {
    pub code: Code,
    pub labels: int,
    pub marked: Option<u64>,
    pub held: Seq<(Seq<char>, Seq<char>)>,
    pub constants: Seq<char>,
    pub sites: Seq<char>,
    pub site_count: int,
}

/// Entering the frame of `name` at the last position stored, after its
/// constant is made; nothing when frames are not kept.
pub open spec fn view_enter(view: EmitView, name: Seq<char>, frames: bool, module: crate::hir::ModuleId) -> (EmitView, Option<Seq<char>>) {
    if !frames {
        (view, None)
    } else {
        let (held, constants, text) = after_constant(view.held, view.constants, name);
        let site = "@.site"@ + crate::chars::decimal(view.site_count as nat);
        let (code, depth) = code_enter_at(view.code, site, None, module);
        (EmitView {
            code,
            held,
            constants,
            sites: view.sites + site + " = private constant %Site { ptr "@ + text + ", i64 "@
                + crate::chars::decimal(text_len(name)) + " }\n"@,
            site_count: view.site_count + 1,
            ..view
        }, Some(depth))
    }
}

/// The case of the noun table for field `field`, defined by function
/// `func` that returns `ret` and takes its owner as `want`: the name asked
/// for is compared with the field's; on a match the frame is entered, the
/// function called on the owner and its result copied out, and the table
/// answers 1; else it goes on to the next case.
#[verifier::opaque]
pub open spec fn noun_case(
    view: EmitView,
    field: Seq<char>,
    func: crate::hir::FuncId,
    ret: Repr,
    want: Repr,
    frames: bool,
    module: crate::hir::ModuleId,
) -> EmitView {
    let (tested, miss) = noun_test(view, field);
    noun_hit(tested, field, func, ret, want, frames, module, miss)
}

/// The comparison that opens a case: the field's constant, the call that
/// compares it with the name asked for, and the branch to the hit block
/// (which is started) or to the miss block (whose label is given).
pub open spec fn noun_test(view: EmitView, field: Seq<char>) -> (EmitView, Seq<char>) {
    let (held, constants, text) = after_constant(view.held, view.constants, field);
    let (c1, same) = code_temp(view.code);
    let c2 = code_line(c1, same + " = call i8 @sr_name_is(ptr %name, i64 %len, ptr "@ + text + ", i64 "@
        + crate::chars::decimal(text_len(field)) + ")"@);
    let (c3, test) = code_temp(c2);
    let c4 = code_line(c3, test + " = icmp ne i8 "@ + same + ", 0"@);
    let hit = "hit"@ + crate::chars::decimal((view.labels + 1) as nat);
    let miss = "miss"@ + crate::chars::decimal((view.labels + 2) as nat);
    let c5 = code_line(c4, "br i1 "@ + test + ", label %"@ + hit + ", label %"@ + miss);
    (EmitView { code: (c5.0 + hit + ":\n"@, c5.1, c5.2), labels: view.labels + 2, marked: None, held, constants, ..view }, miss)
}

/// The hit block of a case: the frame entered, the function called on the
/// owner, its result copied out, the frame left, 1 returned; then the miss
/// block is started.
pub open spec fn noun_hit(
    view: EmitView,
    field: Seq<char>,
    func: crate::hir::FuncId,
    ret: Repr,
    want: Repr,
    frames: bool,
    module: crate::hir::ModuleId,
    miss: Seq<char>,
) -> EmitView {
    let (entered, depth) = view_enter(view, field, frames, module);
    let (c8, owner) = if want == Repr::Boxed {
        (entered.code, "ptr %owner"@)
    } else {
        let (c, found) = code_unboxed(entered.code, Repr::Boxed, "%owner"@, want);
        (c, llvm_name(want) + " "@ + found)
    };
    let callee = "@fn_"@ + crate::chars::decimal(func as nat);
    let c9 = if ret == Repr::Boxed {
        code_line(c8, "call void "@ + callee + "(ptr %out, "@ + owner + ")"@)
    } else {
        let (c, made) = code_temp(c8);
        let c = code_line(c, made + " = call "@ + llvm_name(ret) + " "@ + callee + "("@ + owner + ")"@);
        let (c, kept) = code_boxed(c, ret, made);
        code_line(c, "call void @sr_copy(ptr %out, ptr "@ + kept + ")"@)
    };
    let c10 = match depth {
        Some(d) => code_line(c9, "store i32 "@ + d + ", ptr @SR_DEPTH, align 4"@),
        None => c9,
    };
    let c11 = code_line(c10, "ret i8 1"@);
    EmitView { code: (c11.0 + miss + ":\n"@, c11.1, c11.2), marked: None, ..entered }
}

proof fn lemma_named_after(held: Seq<(Seq<char>, Seq<char>)>, constants: Seq<char>, text: Seq<char>)
    ensures
        named_in(after_constant(held, constants, text).0, text) == Some(after_constant(held, constants, text).2),
        after_constant(after_constant(held, constants, text).0, after_constant(held, constants, text).1, text)
            == after_constant(held, constants, text),
    decreases held.len(),
{
    if held.len() > 0 && held[0].0 != text {
        lemma_named_after(held.drop_first(), constants, text);
        let (h, c, n) = after_constant(held.drop_first(), constants, text);
        if named_in(held.drop_first(), text) is None {
            assert(held.push((text, "@.s"@ + crate::chars::decimal(held.len()))).drop_first()
                =~= held.drop_first().push((text, "@.s"@ + crate::chars::decimal(held.len()))));
            lemma_named_push(held.drop_first(), text, "@.s"@ + crate::chars::decimal(held.len()));
        }
    } else if held.len() == 0 {
        let pushed = held.push((text, "@.s"@ + crate::chars::decimal(held.len())));
        assert(pushed[0].0 == text);
    }
}

proof fn lemma_named_push(held: Seq<(Seq<char>, Seq<char>)>, text: Seq<char>, name: Seq<char>)
    requires
        named_in(held, text) is None,
    ensures
        named_in(held.push((text, name)), text) == Some(name),
    decreases held.len(),
{
    if held.len() > 0 {
        assert(held.push((text, name)).drop_first() =~= held.drop_first().push((text, name)));
        lemma_named_push(held.drop_first(), text, name);
    } else {
        assert(held.push((text, name))[0] == (text, name));
    }
}

impl<'a> Emitter<'a> {
    pub open spec fn view(&self) -> EmitView {
        EmitView {
            code: self.code(),
            labels: self.labels as int,
            marked: self.marked,
            held: pairs(self.strings@),
            constants: self.constants@,
            sites: self.sites@,
            site_count: self.site_count as int,
        }
    }

    /// The fields that writing code leaves alone.
    pub open spec fn frame_kept(&self, before: Emitter<'a>) -> bool {
        &&& self.program == before.program
        &&& self.types == before.types
        &&& self.functions == before.functions
        &&& self.loops == before.loops
        &&& self.module == before.module
        &&& self.current == before.current
        &&& self.frames == before.frames
        &&& self.errors == before.errors
    }
}

} // verus!
verus! {

impl<'a> Emitter<'a> {
    /// The function `func` is one the inferred types know with its
    /// parameters.
    pub open spec fn knows_function(&self, func: crate::hir::FuncId) -> bool {
        &&& (func as int) < self.program.functions@.len()
        &&& (func as int) < self.types.returns@.len()
        &&& (func as int) < self.types.locals@.len()
        &&& forall|k: int| 0 <= k < self.program.functions@[func as int].params@.len()
            ==> (#[trigger] self.program.functions@[func as int].params@[k] as int) < self.types.locals@[func as int]@.len()
    }

    /// How function `func` takes its first argument (boxed when it takes
    /// none).
    pub open spec fn first_param(&self, func: crate::hir::FuncId) -> Repr {
        first_param_of(self.types, *self.program, func)
    }

    /// Writes the case of the noun table for `field` (see `noun_case`).
    #[verifier::rlimit(40)]
    fn write_noun_case(&mut self, field: &str, func: crate::hir::FuncId)
        requires
            old(self).knows_function(func),
            old(self).temps + 40 <= u32::MAX,
            old(self).labels + 2 <= u32::MAX,
            old(self).site_count < u32::MAX,
        ensures
            final(self).view() == noun_case(
                old(self).view(),
                field@,
                func,
                repr_of(old(self).types.returns@[func as int]),
                old(self).first_param(func),
                old(self).frames,
                old(self).module,
            ),
            final(self).frame_kept(*old(self)),
            final(self).temps <= old(self).temps + 24,
            final(self).site_count <= old(self).site_count + 1,
            final(self).labels == old(self).labels + 2,
    {
        let ghost start = self.view();
        proof {
            lemma_named_after(start.held, start.constants, field@);
            reveal(noun_case);
        }
        let miss = self.write_noun_test(field);
        assert(self.knows_function(func));
        assert(self.first_param(func) == old(self).first_param(func));
        self.write_noun_hit(field, func, miss.as_str());
    }

    /// Writes the comparison that opens a case (see `noun_test`).
    #[verifier::rlimit(40)]
    fn write_noun_test(&mut self, field: &str) -> (miss: String)
        requires
            old(self).temps + 2 <= u32::MAX,
            old(self).labels + 2 <= u32::MAX,
        ensures
            (final(self).view(), miss@) == noun_test(old(self).view(), field@),
            final(self).frame_kept(*old(self)),
            final(self).temps == old(self).temps + 2,
            final(self).site_count == old(self).site_count,
            final(self).labels == old(self).labels + 2,
    {
        let (text, len) = self.constant_of(field);
        let same = self.temp();
        let mut line = crate::chars::owned(same.as_str());
        push_str(&mut line, " = call i8 @sr_name_is(ptr %name, i64 %len, ptr ");
        push_str(&mut line, text.as_str());
        push_str(&mut line, ", i64 ");
        crate::chars::push_decimal(&mut line, len as u64);
        push_str(&mut line, ")");
        self.line(line.as_str());
        let test = self.temp();
        let mut line = crate::chars::owned(test.as_str());
        push_str(&mut line, " = icmp ne i8 ");
        push_str(&mut line, same.as_str());
        push_str(&mut line, ", 0");
        self.line(line.as_str());
        let hit = self.label("hit");
        let miss = self.label("miss");
        let mut line = crate::chars::owned("br i1 ");
        push_str(&mut line, test.as_str());
        push_str(&mut line, ", label %");
        push_str(&mut line, hit.as_str());
        push_str(&mut line, ", label %");
        push_str(&mut line, miss.as_str());
        self.line(line.as_str());
        self.mark(hit.as_str());
        miss
    }

    /// Writes the hit block of a case (see `noun_hit`).
    #[verifier::rlimit(60)]
    fn write_noun_hit(&mut self, field: &str, func: crate::hir::FuncId, miss: &str)
        requires
            old(self).knows_function(func),
            old(self).temps + 38 <= u32::MAX,
            old(self).site_count < u32::MAX,
            named_in(old(self).view().held, field@) is Some,
        ensures
            final(self).view() == noun_hit(
                old(self).view(),
                field@,
                func,
                repr_of(old(self).types.returns@[func as int]),
                old(self).first_param(func),
                old(self).frames,
                old(self).module,
                miss@,
            ),
            final(self).frame_kept(*old(self)),
            final(self).temps <= old(self).temps + 22,
            final(self).site_count <= old(self).site_count + 1,
            final(self).labels == old(self).labels,
    {
        proof {
            lemma_named(self.strings@, field@);
        }
        let depth = self.enter(field, None);
        let (ret, params) = self.signature(func);
        let want = if params.len() > 0 { params[0] } else { Repr::Boxed };
        let owner = if want == Repr::Boxed {
            crate::chars::owned("ptr %owner")
        } else {
            let found = self.unboxed(Val { repr: Repr::Boxed, name: crate::chars::owned("%owner") }, want);
            let mut owner = crate::chars::owned(want.llvm());
            push_str(&mut owner, " ");
            push_str(&mut owner, found.as_str());
            owner
        };
        let mut callee = crate::chars::owned("@fn_");
        crate::chars::push_decimal(&mut callee, func as u64);
        if ret == Repr::Boxed {
            let mut line = crate::chars::owned("call void ");
            push_str(&mut line, callee.as_str());
            push_str(&mut line, "(ptr %out, ");
            push_str(&mut line, owner.as_str());
            push_str(&mut line, ")");
            self.line(line.as_str());
        } else {
            let made = self.temp();
            let mut line = crate::chars::owned(made.as_str());
            push_str(&mut line, " = call ");
            push_str(&mut line, ret.llvm());
            push_str(&mut line, " ");
            push_str(&mut line, callee.as_str());
            push_str(&mut line, "(");
            push_str(&mut line, owner.as_str());
            push_str(&mut line, ")");
            self.line(line.as_str());
            let kept = self.boxed(Val { repr: ret, name: made });
            let mut line = crate::chars::owned("call void @sr_copy(ptr %out, ptr ");
            push_str(&mut line, kept.as_str());
            push_str(&mut line, ")");
            self.line(line.as_str());
        }
        match depth {
            Some(d) => {
                let mut line = crate::chars::owned("store i32 ");
                push_str(&mut line, d.as_str());
                push_str(&mut line, ", ptr @SR_DEPTH, align 4");
                self.line(line.as_str());
            },
            None => {},
        }
        self.line("ret i8 1");
        self.mark(miss);
    }
}

} // verus!
verus! {

/// How function `func` takes its first argument (boxed when it takes none).
pub open spec fn first_param_of(types: crate::types::Types, program: crate::hir::Program, func: crate::hir::FuncId) -> Repr {
    if program.functions@[func as int].params@.len() > 0 {
        repr_of(types.locals@[func as int]@[program.functions@[func as int].params@[0] as int])
    } else {
        Repr::Boxed
    }
}

/// The cases of a noun table, one for each entry in turn.
pub open spec fn noun_cases(
    view: EmitView,
    entries: Seq<crate::order::Entry>,
    types: crate::types::Types,
    program: crate::hir::Program,
    frames: bool,
    module: crate::hir::ModuleId,
) -> EmitView
    decreases entries.len(),
{
    if entries.len() == 0 {
        view
    } else {
        let before = noun_cases(view, entries.drop_last(), types, program, frames, module);
        let (field, func) = entries.last();
        noun_case(before, field, func, repr_of(types.returns@[func as int]), first_param_of(types, program, func), frames, module)
    }
}

/// A module's nouns: each field's name with the function that computes it.
pub open spec fn noun_entries(program: crate::hir::Program, module: crate::hir::ModuleId) -> Seq<crate::order::Entry> {
    let nouns = program.modules@[module as int].nouns@;
    Seq::new(nouns.len(), |i: int| (program.names@[nouns[i].0 as int], nouns[i].1))
}

/// Slot lines joined by newlines.
pub open spec fn joined_lines(lines: Seq<Seq<char>>) -> Seq<char>
    decreases lines.len(),
{
    if lines.len() == 0 {
        seq![]
    } else if lines.len() == 1 {
        lines[0]
    } else {
        joined_lines(lines.drop_last()) + "\n"@ + lines.last()
    }
}

impl<'a> Emitter<'a> {
    /// The nouns of `module` are fields the program names and functions the
    /// inferred types know.
    pub open spec fn nouns_known(&self, module: crate::hir::ModuleId) -> bool {
        &&& (module as int) < self.program.modules@.len()
        &&& forall|i: int| 0 <= i < self.program.modules@[module as int].nouns@.len() ==> {
            &&& (#[trigger] self.program.modules@[module as int].nouns@[i]).0 < self.program.names@.len()
            &&& self.knows_function(self.program.modules@[module as int].nouns@[i].1)
        }
    }

    /// The module's nouns, by field name.
    fn noun_pairs(&self, module: crate::hir::ModuleId) -> (found: Vec<(String, u32)>)
        requires
            self.nouns_known(module),
        ensures
            crate::order::entries_view(found@) == noun_entries(*self.program, module),
    {
        let nouns = &self.program.modules[module as usize].nouns;
        let mut found: Vec<(String, u32)> = Vec::new();
        let mut i: usize = 0;
        while i < nouns.len()
            invariant
                i <= nouns@.len(),
                self.nouns_known(module),
                *nouns == self.program.modules@[module as int].nouns,
                crate::order::entries_view(found@) == noun_entries(*self.program, module).take(i as int),
            decreases nouns@.len() - i,
        {
            let (field, func) = nouns[i];
            assert(self.program.modules@[module as int].nouns@[i as int].0 < self.program.names@.len());
            let name = crate::chars::owned(self.program.names.name(field));
            let ghost before = crate::order::entries_view(found@);
            let ghost nm = name@;
            assert(nm == self.program.names@[field as int]);
            assert(before.len() == i);
            found.push((name, func));
            assert(found@.len() == i + 1);
            assert(found@[i as int].0@ == nm);
            assert(found@[i as int].1 == func);
            assert(nouns@[i as int] == (field, func));
            assert(noun_entries(*self.program, module)[i as int] == (self.program.names@[field as int], func));
            assert(crate::order::entries_view(found@)[i as int] == (self.program.names@[field as int], func));
            assert forall|k: int| 0 <= k < i implies crate::order::entries_view(found@)[k] == before[k] by {}
            assert(crate::order::entries_view(found@) =~= noun_entries(*self.program, module).take(i + 1));
            i += 1;
        }
        assert(noun_entries(*self.program, module).take(nouns@.len() as int) =~= noun_entries(*self.program, module));
        found
    }
}

} // verus!
verus! {

/// The header of a module's noun table.
pub open spec fn noun_header(module: crate::hir::ModuleId) -> Seq<char> {
    "define internal i8 @nouns_"@ + crate::chars::decimal(module as nat) + "(ptr %out, ptr %owner, ptr %name, i64 %len)"@
}

impl<'a> Emitter<'a> {
    /// Writes the noun table of `module`, when it defines nouns: a function
    /// that, given a field's name and an owner, calls the noun defined for
    /// that name (the names in order) and answers whether there was one.
    #[verifier::rlimit(80)]
    pub fn noun_table(&mut self, module: crate::hir::ModuleId)
        requires
            old(self).nouns_known(module),
            old(self).program.modules@[module as int].nouns@.len() * 24 + 40 <= u32::MAX,
            old(self).labels + 2 * old(self).program.modules@[module as int].nouns@.len() <= u32::MAX,
            old(self).site_count + old(self).program.modules@[module as int].nouns@.len() <= u32::MAX,
        ensures
            ({
                let entries = crate::order::sorted_entries(noun_entries(*old(self).program, module));
                let start = EmitView {
                    code: (Seq::empty(), Seq::empty(), 0),
                    labels: old(self).labels as int,
                    marked: None,
                    held: pairs(old(self).strings@),
                    constants: old(self).constants@,
                    sites: old(self).sites@,
                    site_count: old(self).site_count as int,
                };
                let cases = noun_cases(start, entries, old(self).types, *old(self).program, old(self).frames, module);
                let code = code_line(cases.code, "ret i8 0"@);
                if entries.len() == 0 {
                    *final(self) == *old(self)
                } else {
                    &&& final(self).functions@ == old(self).functions@ + noun_header(module) + " {\nentry:\n"@
                        + (if code.1.len() > 0 { joined_lines(code.1) + "\n"@ } else { Seq::empty() }) + code.0
                        + "}\n\n"@
                    &&& final(self).body@.len() == 0
                    &&& texts(final(self).allocas@) == code.1
                    &&& final(self).temps == code.2
                    &&& final(self).labels == cases.labels
                    &&& final(self).marked == cases.marked
                    &&& pairs(final(self).strings@) == cases.held
                    &&& final(self).constants@ == cases.constants
                    &&& final(self).sites@ == cases.sites
                    &&& final(self).site_count == cases.site_count
                    &&& final(self).module == module
                    &&& final(self).current is None
                    &&& final(self).loops@.len() == 0
                    &&& final(self).program == old(self).program
                    &&& final(self).types == old(self).types
                    &&& final(self).frames == old(self).frames
                    &&& final(self).errors == old(self).errors
                }
            }),
    {
        broadcast use vstd::seq_lib::group_to_multiset_ensures;

        let found = self.noun_pairs(module);
        let sorted = crate::order::sort_entries(&found);
        let ghost entries = crate::order::entries_view(sorted@);
        let ghost count = self.program.modules@[module as int].nouns@.len();
        if sorted.len() == 0 {
            return;
        }
        assert forall|k: int| 0 <= k < entries.len() implies #[trigger] old(self).knows_function(entries[k].1) by {
            assert(entries.to_multiset().contains(entries[k]));
            assert(noun_entries(*self.program, module).contains(entries[k]));
            let i = choose|i: int| 0 <= i < noun_entries(*self.program, module).len()
                && noun_entries(*self.program, module)[i] == entries[k];
            assert(self.program.modules@[module as int].nouns@[i].1 == entries[k].1);
        }
        assert(entries.len() == count) by {
            assert(entries.to_multiset().len() == noun_entries(*self.program, module).to_multiset().len());
        }
        self.open(module);
        self.current = None;
        let ghost start = self.view();
        let ghost base = *self;
        assert(self.body@ =~= Seq::<char>::empty());
        assert(texts(self.allocas@) =~= Seq::<Seq<char>>::empty());
        assert(start == EmitView {
            code: (Seq::empty(), Seq::empty(), 0),
            labels: old(self).labels as int,
            marked: None,
            held: pairs(old(self).strings@),
            constants: old(self).constants@,
            sites: old(self).sites@,
            site_count: old(self).site_count as int,
        });
        let mut k: usize = 0;
        assert(entries.take(0) =~= Seq::<crate::order::Entry>::empty());
        while k < sorted.len()
            invariant
                k <= sorted@.len(),
                entries == crate::order::entries_view(sorted@),
                entries.len() == count,
                forall|j: int| 0 <= j < entries.len() ==> #[trigger] old(self).knows_function(entries[j].1),
                self.frame_kept(base),
                base.program == old(self).program,
                base.types == old(self).types,
                base.module == module,
                base.frames == old(self).frames,
                self.view() == noun_cases(start, entries.take(k as int), self.types, *self.program, self.frames, module),
                self.temps <= 24 * k,
                self.labels == old(self).labels + 2 * k,
                self.site_count <= old(self).site_count + k,
                count * 24 + 40 <= u32::MAX,
                old(self).labels + 2 * count <= u32::MAX,
                old(self).site_count + count <= u32::MAX,
            decreases sorted@.len() - k,
        {
            assert(entries.take(k + 1).drop_last() =~= entries.take(k as int));
            assert(entries[k as int] == (sorted@[k as int].0@, sorted@[k as int].1));
            assert(entries.take(k + 1).last() == entries[k as int]);
            assert(old(self).knows_function(entries[k as int].1));
            assert(self.knows_function(entries[k as int].1));
            self.write_noun_case(sorted[k].0.as_str(), sorted[k].1);
            k += 1;
        }
        assert(entries.take(entries.len() as int) =~= entries);
        let ghost cases = self.view();
        self.line("ret i8 0");
        let ghost code = code_line(cases.code, "ret i8 0"@);
        assert(self.code() == code);
        assert(texts(self.allocas@).len() == self.allocas@.len());
        self.close_table(module);
    }

    /// Ends a noun table: its header, its slots joined by newlines, and its
    /// body go to the finished functions; the body is emptied.
    fn close_table(&mut self, module: crate::hir::ModuleId)
        ensures
            final(self).functions@ == old(self).functions@ + noun_header(module) + " {\nentry:\n"@
                + (if old(self).allocas@.len() > 0 { joined_lines(texts(old(self).allocas@)) + "\n"@ } else { Seq::empty() })
                + old(self).body@ + "}\n\n"@,
            final(self).body@.len() == 0,
            final(self).allocas == old(self).allocas,
            final(self).temps == old(self).temps,
            final(self).labels == old(self).labels,
            final(self).marked == old(self).marked,
            final(self).strings == old(self).strings,
            final(self).constants == old(self).constants,
            final(self).sites == old(self).sites,
            final(self).site_count == old(self).site_count,
            final(self).frame_kept_but_functions(*old(self)),
    {
        push_str(&mut self.functions, "define internal i8 @nouns_");
        crate::chars::push_decimal(&mut self.functions, module as u64);
        push_str(&mut self.functions, "(ptr %out, ptr %owner, ptr %name, i64 %len)");
        push_str(&mut self.functions, " {\nentry:\n");
        let ghost head = self.functions@;
        assert(head =~= old(self).functions@ + noun_header(module) + " {\nentry:\n"@);
        let ghost listed = if old(self).allocas@.len() > 0 { joined_lines(texts(old(self).allocas@)) + "\n"@ } else { Seq::<char>::empty() };
        if self.allocas.len() > 0 {
            let mut at: usize = 0;
            assert(texts(self.allocas@).take(0) =~= Seq::<Seq<char>>::empty());
            while at < self.allocas.len()
                invariant
                    at <= self.allocas@.len(),
                    self.allocas@.len() > 0,
                    *self == (Emitter { functions: self.functions, ..*old(self) }),
                    head == old(self).functions@ + noun_header(module) + " {\nentry:\n"@,
                    self.functions@ == head + joined_lines(texts(self.allocas@).take(at as int)),
                decreases self.allocas@.len() - at,
            {
                assert(texts(self.allocas@).take(at + 1).drop_last() =~= texts(self.allocas@).take(at as int));
                if at > 0 {
                    push_str(&mut self.functions, "\n");
                }
                let line = crate::chars::owned(self.allocas[at].as_str());
                push_str(&mut self.functions, line.as_str());
                at += 1;
            }
            assert(texts(self.allocas@).take(self.allocas@.len() as int) =~= texts(self.allocas@));
            push_str(&mut self.functions, "\n");
        }
        assert(self.functions@ =~= head + listed);
        let body = crate::chars::owned(self.body.as_str());
        self.body = String::new();
        push_str(&mut self.functions, body.as_str());
        push_str(&mut self.functions, "}\n\n");
        assert(self.functions@ =~= old(self).functions@ + noun_header(module) + " {\nentry:\n"@ + listed + old(self).body@ + "}\n\n"@);
    }

    /// The fields that writing code leaves alone, the finished functions
    /// aside.
    pub open spec fn frame_kept_but_functions(&self, before: Emitter<'a>) -> bool {
        &&& self.program == before.program
        &&& self.types == before.types
        &&& self.loops == before.loops
        &&& self.module == before.module
        &&& self.current == before.current
        &&& self.frames == before.frames
        &&& self.errors == before.errors
    }
}

} // verus!
verus! {

/// A noun whose result may be nothing, or of no single type, has its
/// result checked where it is used.
pub open spec fn result_checked(kind: crate::hir::Kind, ty: Ty) -> bool {
    kind == crate::hir::Kind::Noun && (ty == Ty::Any || ty == Ty::Nothing || ty == Ty::Never)
}

/// The check of a noun's result `made` (a representation and a name),
/// at the position `packed`, naming the noun `name`.
pub open spec fn guard_view(view: EmitView, made: (Repr, Seq<char>), name: Seq<char>, packed: u64) -> EmitView {
    let (c1, held) = code_boxed(view.code, made.0, made.1);
    let (kept, constants, text) = after_constant(view.held, view.constants, name);
    let stored = if view.marked == Some(packed) {
        c1
    } else {
        code_line(c1, "store i64 "@ + crate::chars::decimal(packed as nat) + ", ptr @SR_POS, align 8"@)
    };
    EmitView {
        code: code_line(stored, "call void @sr_check_value(ptr "@ + held + ", ptr "@ + text + ", i64 "@
            + crate::chars::decimal(text_len(name)) + ")"@),
        marked: Some(packed),
        held: kept,
        constants,
        ..view
    }
}

impl<'a> Emitter<'a> {
    /// The constant that holds the name of field `field`.
    pub fn name_of(&mut self, field: crate::intern::Symbol) -> (found: (String, usize))
        requires
            (field as int) < old(self).program.names@.len(),
        ensures
            (pairs(final(self).strings@), final(self).constants@, found.0@)
                == after_constant(pairs(old(self).strings@), old(self).constants@, old(self).program.names@[field as int]),
            found.1 as nat == text_len(old(self).program.names@[field as int]),
            final(self).code() == old(self).code(),
            final(self).marked == old(self).marked,
            final(self).frame_kept(*old(self)),
            final(self).labels == old(self).labels,
            final(self).sites == old(self).sites,
            final(self).site_count == old(self).site_count,
    {
        let text = crate::chars::owned(self.program.names.name(field));
        self.constant_of(text.as_str())
    }

    /// Checks the result `made` of function `func` where a noun's result
    /// may be nothing.
    pub fn guard_result(&mut self, func: crate::hir::FuncId, made: &Val, span: crate::diag::Span)
        requires
            (func as int) < old(self).program.functions@.len(),
            (func as int) < old(self).types.returns@.len(),
            old(self).temps + 6 <= u32::MAX,
        ensures
            !result_checked(old(self).program.functions@[func as int].kind, old(self).types.returns@[func as int])
                ==> *final(self) == *old(self),
            result_checked(old(self).program.functions@[func as int].kind, old(self).types.returns@[func as int])
                ==> final(self).view() == guard_view(
                    old(self).view(),
                    (made.repr, made.name@),
                    old(self).program.functions@[func as int].name@,
                    packed_span(old(self).module, span),
                ),
            final(self).frame_kept(*old(self)),
    {
        let kind = self.program.functions[func as usize].kind;
        let ty = self.types.returns[func as usize];
        let needed = match kind {
            crate::hir::Kind::Noun => ty == Ty::Any || ty == Ty::Nothing || ty == Ty::Never,
            crate::hir::Kind::Verb => false,
        };
        if !needed {
            return;
        }
        let name = crate::chars::owned(self.program.functions[func as usize].name.as_str());
        let held = self.boxed(Val { repr: made.repr, name: crate::chars::owned(made.name.as_str()) });
        let (text, len) = self.constant_of(name.as_str());
        self.at(span);
        let mut line = crate::chars::owned("call void @sr_check_value(ptr ");
        push_str(&mut line, held.as_str());
        push_str(&mut line, ", ptr ");
        push_str(&mut line, text.as_str());
        push_str(&mut line, ", i64 ");
        crate::chars::push_decimal(&mut line, len as u64);
        push_str(&mut line, ")");
        self.line(line.as_str());
    }
}

} // verus!
