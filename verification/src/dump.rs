//! Text shown by the debugging dumps.

use vstd::prelude::*;

use crate::chars::{chars_of, owned, push_char, push_str};
use crate::lex::{Part, PartModel};
use crate::sig::{Marker, MarkerModel};
use crate::ast::{CallExpr, Expr, Literal, LoopKind, Selector, Slot, Stmt, Target, TemplatePart};
use crate::builtins::Builtin;
use crate::chars::decimal;
use crate::hir::{Callee, Expr as HExpr, FuncId, Kind, LocalId, ModuleId, Place, Program, Stmt as HStmt};
use crate::intern::{Interner, Symbol};

verus! {

/// A character as the dumps show it: backslash, newline and tab escaped.
pub open spec fn escaped_char(ch: char) -> Seq<char> {
    if ch == '\\' {
        seq!['\\', '\\']
    } else if ch == '\n' {
        seq!['\\', 'n']
    } else if ch == '\t' {
        seq!['\\', 't']
    } else {
        seq![ch]
    }
}

pub open spec fn escaped(text: Seq<char>) -> Seq<char>
    decreases text.len(),
{
    if text.len() == 0 {
        seq![]
    } else {
        escaped(text.drop_last()) + escaped_char(text.last())
    }
}

/// Appends `text` escaped.
fn push_escaped(into: &mut String, text: &str)
    ensures
        final(into)@ == old(into)@ + escaped(text@),
{
    let letters = chars_of(text);
    let ghost start = into@;
    let mut at: usize = 0;
    assert(text@.take(0) =~= Seq::<char>::empty());
    assert(start + Seq::<char>::empty() =~= start);
    while at < letters.len()
        invariant
            at <= letters@.len(),
            letters@ == text@,
            into@ == start + escaped(text@.take(at as int)),
        decreases letters@.len() - at,
    {
        let ch = letters[at];
        assert(text@.take(at + 1).drop_last() =~= text@.take(at as int));
        assert(text@.take(at + 1).last() == ch);
        let ghost before = into@;
        if ch == '\\' {
            push_char(into, '\\');
            push_char(into, '\\');
        } else if ch == '\n' {
            push_char(into, '\\');
            push_char(into, 'n');
        } else if ch == '\t' {
            push_char(into, '\\');
            push_char(into, 't');
        } else {
            push_char(into, ch);
        }
        assert(into@ =~= before + escaped_char(ch));
        assert(start + escaped(text@.take(at + 1)) =~= start + escaped(text@.take(at as int)) + escaped_char(ch));
        at += 1;
    }
    assert(text@.take(text@.len() as int) =~= text@);
}

/// `text` with backslash, newline and tab escaped.
pub fn escape(text: &str) -> (out: String)
    ensures
        out@ == escaped(text@),
{
    let mut out = String::new();
    push_escaped(&mut out, text);
    out
}

/// A template piece as the token dump shows it.
pub open spec fn part_text(part: PartModel) -> Seq<char> {
    match part {
        PartModel::Text(text) => "text:"@ + escaped(text),
        PartModel::Expr(source, _) => "expr:"@ + escaped(source),
    }
}

/// The pieces of a template, joined by bars.
pub open spec fn template_text(parts: Seq<PartModel>) -> Seq<char>
    decreases parts.len(),
{
    if parts.len() == 0 {
        seq![]
    } else if parts.len() == 1 {
        part_text(parts[0])
    } else {
        template_text(parts.drop_last()) + "|"@ + part_text(parts.last())
    }
}

pub fn template(parts: &Vec<Part>) -> (out: String)
    ensures
        out@ == template_text(crate::lex::parts_view(parts@)),
{
    let ghost all = crate::lex::parts_view(parts@);
    let mut out = String::new();
    let mut at: usize = 0;
    assert(all.take(0) =~= Seq::<PartModel>::empty());
    while at < parts.len()
        invariant
            at <= parts@.len(),
            all == crate::lex::parts_view(parts@),
            out@ == template_text(all.take(at as int)),
        decreases parts@.len() - at,
    {
        let ghost before = out@;
        assert(all.take(at + 1).drop_last() =~= all.take(at as int));
        assert(all.take(at + 1).last() == parts@[at as int]@);
        if at > 0 {
            push_str(&mut out, "|");
        } else {
            assert(before =~= Seq::<char>::empty());
        }
        let ghost middle = out@;
        match &parts[at] {
            Part::Text(text) => {
                push_str(&mut out, "text:");
                push_escaped(&mut out, text.as_str());
                assert(out@ =~= middle + part_text(parts@[at as int]@));
            },
            Part::Expr { source, .. } => {
                push_str(&mut out, "expr:");
                push_escaped(&mut out, source.as_str());
                assert(out@ =~= middle + part_text(parts@[at as int]@));
            },
        }
        at += 1;
    }
    assert(all.take(parts@.len() as int) =~= all);
    out
}

/// How the syntax dump names a marker.
pub fn marker_name(marker: Marker) -> (found: &'static str)
    ensures
        found@ == marker_text(marker@),
{
    match marker {
        Marker::Case(particle) => particle,
        Marker::Bare => "-",
        Marker::Module => "모듈",
    }
}

} // verus!
verus! {

/// How the lowered-program dump names a place.
pub fn place_name(place: crate::hir::Place) -> (out: String)
    ensures
        out@ == match place {
            crate::hir::Place::Local(slot) => "local "@ + crate::chars::decimal(slot as nat),
            crate::hir::Place::Global(slot) => "global "@ + crate::chars::decimal(slot as nat),
        },
{
    match place {
        crate::hir::Place::Local(slot) => {
            let mut out = crate::chars::owned("local ");
            crate::chars::push_decimal(&mut out, slot as u64);
            out
        },
        crate::hir::Place::Global(slot) => {
            let mut out = crate::chars::owned("global ");
            crate::chars::push_decimal(&mut out, slot as u64);
            out
        },
    }
}

} // verus!
verus! {

/// How a marker is shown in the syntax dump.
pub open spec fn marker_text(marker: MarkerModel) -> Seq<char> {
    match marker {
        MarkerModel::Case(particle) => particle,
        MarkerModel::Bare => "-"@,
        MarkerModel::Module => "모듈"@,
    }
}

/// A dump as a tree: a line of text, or a labelled node whose children
/// are shown indented under it.
pub enum Tree {
    Leaf(String),
    Node(String, Vec<Tree>),
}

/// What a dump tree holds.
pub enum Shape {
    Leaf(Seq<char>),
    Node(Seq<char>, Seq<Shape>),
}

pub open spec fn shape_of(tree: Tree) -> Shape
    decreases tree,
{
    match tree {
        Tree::Leaf(text) => Shape::Leaf(text@),
        Tree::Node(label, kids) => Shape::Node(
            label@,
            Seq::new(kids@.len(), |i: int| if 0 <= i < kids@.len() { shape_of(kids@[i]) } else { Shape::Leaf(seq![]) }),
        ),
    }
}

/// A tree shown under the indentation `pad`: a leaf on one line; a node
/// as `(label`, its children two spaces further in, and `)`.
pub open spec fn rendered(shape: Shape, pad: Seq<char>) -> Seq<char>
    decreases shape,
{
    match shape {
        Shape::Leaf(text) => pad + text + "\n"@,
        Shape::Node(label, kids) => pad + "("@ + label + "\n"@ + rendered_all(kids, pad + "  "@) + pad + ")\n"@,
    }
}

pub open spec fn rendered_all(kids: Seq<Shape>, pad: Seq<char>) -> Seq<char>
    decreases kids,
{
    if kids.len() == 0 {
        seq![]
    } else {
        rendered_all(kids.drop_last(), pad) + rendered(kids.last(), pad)
    }
}

pub open spec fn bit_text(flag: bool) -> Seq<char> {
    if flag { "1"@ } else { "0"@ }
}

pub open spec fn literal_text(value: Literal) -> Seq<char> {
    match value {
        Literal::Nothing => "lit nothing"@,
        Literal::Int(found) => "lit int "@ + crate::chars::signed_decimal(found as int),
        Literal::Float(text) => "lit float "@ + text@,
        Literal::Str(text) => "lit str "@ + escaped(text@),
        Literal::Bool(found) => "lit bool "@ + if found { "참"@ } else { "거짓"@ },
    }
}

/// The head line of a call: its verb, the name its result is taken by,
/// and whether it is negated or asks.
pub open spec fn call_head(call: CallExpr) -> Seq<char> {
    "call "@ + call.verb@ + " tail="@ + match call.tail {
        Some(tail) => tail@,
        None => "-"@,
    } + " neg="@ + bit_text(call.negated) + " asks="@ + bit_text(call.asks)
}

pub open spec fn slot_label(slot: Slot) -> Seq<char> {
    "slot "@ + marker_text(slot.marker@)
}

/// `그리고` and `또는` are shown as calls of those verbs on two bare slots.
pub open spec fn joined_shape(verb: Seq<char>, left: Shape, right: Shape) -> Shape {
    Shape::Node(
        "call "@ + verb + " tail=- neg=0 asks=0"@,
        seq![Shape::Node("slot -"@, seq![left]), Shape::Node("slot -"@, seq![right])],
    )
}

pub open spec fn expr_shape(expr: Expr) -> Shape
    decreases expr,
{
    match expr {
        Expr::Pick { owner, key, .. } => Shape::Node("pick"@, seq![expr_shape(*owner), expr_shape(*key)]),
        Expr::Spot { owner, place, .. } => Shape::Node("spot"@, seq![expr_shape(*owner), expr_shape(*place)]),
        Expr::Literal { value, .. } => Shape::Leaf(literal_text(value)),
        Expr::Name { name, .. } => Shape::Leaf("name "@ + name@),
        Expr::Table { items, entries, .. } => Shape::Node(
            "table"@,
            Seq::new(items@.len(), |i: int| if 0 <= i < items@.len() { expr_shape(items@[i]) } else { Shape::Leaf(seq![]) })
            + Seq::new(entries@.len(), |i: int| if 0 <= i < entries@.len() {
                Shape::Node("entry "@ + entries@[i].0@, seq![expr_shape(entries@[i].1)])
            } else {
                Shape::Leaf(seq![])
            }),
        ),
        Expr::Template { parts, .. } => Shape::Node(
            "template"@,
            Seq::new(parts@.len(), |i: int| if 0 <= i < parts@.len() {
                match parts@[i] {
                    TemplatePart::Text(text) => Shape::Leaf("lit str "@ + escaped(text@)),
                    TemplatePart::Expr(inner) => expr_shape(inner),
                }
            } else {
                Shape::Leaf(seq![])
            }),
        ),
        Expr::Field { owner, name, .. } => Shape::Node("field "@ + name@, seq![expr_shape(*owner)]),
        Expr::Call(call) => call_shape(*call),
        Expr::Passive(passive) => Shape::Node(
            "passive "@ + passive.verb@,
            seq![Shape::Node("head"@, seq![expr_shape(passive.head)])]
            + Seq::new(passive.slots@.len(), |i: int| if 0 <= i < passive.slots@.len() {
                Shape::Node(slot_label(passive.slots@[i]), seq![expr_shape(passive.slots@[i].expr)])
            } else {
                Shape::Leaf(seq![])
            }),
        ),
        Expr::And { left, right, .. } => joined_shape("그리고"@, expr_shape(*left), expr_shape(*right)),
        Expr::Or { left, right, .. } => joined_shape("또는"@, expr_shape(*left), expr_shape(*right)),
    }
}

pub open spec fn call_shape(call: CallExpr) -> Shape
    decreases call,
{
    Shape::Node(
        call_head(call),
        Seq::new(call.slots@.len(), |i: int| if 0 <= i < call.slots@.len() {
            Shape::Node(slot_label(call.slots@[i]), seq![expr_shape(call.slots@[i].expr)])
        } else {
            Shape::Leaf(seq![])
        }),
    )
}

} // verus!
verus! {

/// A selector applied to the tree of what it selects from.
pub open spec fn selected_shape(inner: Shape, field: Selector) -> Shape
    decreases field,
{
    match field {
        Selector::Name(name) => Shape::Node("field "@ + name@, seq![inner]),
        Selector::Pick(key) => Shape::Node("pick"@, seq![inner, expr_shape(key)]),
        Selector::Spot(place) => Shape::Node("spot"@, seq![inner, expr_shape(place)]),
    }
}

/// The tree of a declared name with the first `fields` applied in turn.
pub open spec fn target_path(root: Seq<char>, fields: Seq<Selector>) -> Shape
    decreases fields,
{
    if fields.len() == 0 {
        Shape::Leaf("name "@ + root)
    } else {
        selected_shape(target_path(root, fields.drop_last()), fields.last())
    }
}

pub open spec fn param_text(param: (Marker, String)) -> Seq<char> {
    marker_text(param.0@) + ":"@ + param.1@
}

/// The parameters of a definition, each as `marker:name`, space-separated.
pub open spec fn params_text(params: Seq<(Marker, String)>) -> Seq<char>
    decreases params.len(),
{
    if params.len() == 0 {
        seq![]
    } else if params.len() == 1 {
        param_text(params[0])
    } else {
        params_text(params.drop_last()) + " "@ + param_text(params.last())
    }
}

/// Names separated by single spaces.
pub open spec fn names_text(names: Seq<String>) -> Seq<char>
    decreases names.len(),
{
    if names.len() == 0 {
        seq![]
    } else if names.len() == 1 {
        names[0]@
    } else {
        names_text(names.drop_last()) + " "@ + names.last()@
    }
}

pub open spec fn import_text(module: String, names: Option<Vec<String>>) -> Seq<char> {
    "import "@ + module@ + " ["@ + match names {
        Some(found) => names_text(found@),
        None => "*"@,
    } + "]"@
}

pub open spec fn block_shape(label: Seq<char>, body: Seq<Stmt>) -> Shape
    decreases body,
{
    Shape::Node(label, Seq::new(body.len(), |i: int| if 0 <= i < body.len() { stmt_shape(body[i]) } else { Shape::Leaf(seq![]) }))
}

pub open spec fn stmt_shape(statement: Stmt) -> Shape
    decreases statement,
{
    match statement {
        Stmt::Declare { assigns, .. } => Shape::Node(
            "declare"@,
            Seq::new(2 * assigns@.len(), |i: int| if 0 <= i < 2 * assigns@.len() {
                if i % 2 == 0 {
                    Shape::Node("target"@, seq![target_path(assigns@[i / 2].0.root@, assigns@[i / 2].0.fields@)])
                } else {
                    Shape::Node("value"@, seq![expr_shape(assigns@[i / 2].1)])
                }
            } else {
                Shape::Leaf(seq![])
            }),
        ),
        Stmt::Exec { calls, .. } => Shape::Node(
            "exec"@,
            Seq::new(calls@.len(), |i: int| if 0 <= i < calls@.len() { call_shape(calls@[i]) } else { Shape::Leaf(seq![]) }),
        ),
        Stmt::Value { expr, .. } => Shape::Node("value"@, seq![expr_shape(expr)]),
        Stmt::If { branches, otherwise, .. } => Shape::Node(
            "if"@,
            Seq::new(branches@.len(), |i: int| if 0 <= i < branches@.len() {
                Shape::Node("branch"@, seq![
                    Shape::Node("test"@, seq![expr_shape(branches@[i].0)]),
                    block_shape("body"@, branches@[i].1@),
                ])
            } else {
                Shape::Leaf(seq![])
            }) + match otherwise {
                Some(body) => seq![block_shape("otherwise"@, body@)],
                None => seq![],
            },
        ),
        Stmt::Loop { kind, body, .. } => match kind {
            LoopKind::Each { variable, over } => Shape::Node(
                "each "@ + variable@,
                seq![Shape::Node("over"@, seq![expr_shape(over)]), block_shape("body"@, body@)],
            ),
            LoopKind::Range { variable, start, stop, step } => Shape::Node(
                "loop range "@ + variable@,
                seq![Shape::Node("start"@, seq![expr_shape(start)]), Shape::Node("stop"@, seq![expr_shape(stop)])]
                + match step {
                    Some(by) => seq![Shape::Node("step"@, seq![expr_shape(by)])],
                    None => seq![],
                }
                + seq![block_shape("body"@, body@)],
            ),
            LoopKind::While { test } => Shape::Node(
                "loop while"@,
                seq![Shape::Node("test"@, seq![expr_shape(test)]), block_shape("body"@, body@)],
            ),
        },
        Stmt::Break { .. } => Shape::Leaf("break"@),
        Stmt::Continue { .. } => Shape::Leaf("continue"@),
        Stmt::Return { value, .. } => Shape::Node("return"@, seq![expr_shape(value)]),
        Stmt::Define { name, params, body, .. } => Shape::Node(
            "define "@ + name@ + " ["@ + params_text(params@) + "]"@,
            seq![block_shape("body"@, body@)],
        ),
        Stmt::Noun { name, owner, body, .. } => Shape::Node(
            "noun "@ + name@ + " of "@ + owner@,
            seq![block_shape("body"@, body@)],
        ),
        Stmt::Import { module, names, .. } => Shape::Leaf(import_text(module, names)),
    }
}

/// The syntax dump of a program: each statement's tree, unindented.
pub open spec fn ast_text(statements: Seq<Stmt>) -> Seq<char>
    decreases statements.len(),
{
    if statements.len() == 0 {
        seq![]
    } else {
        ast_text(statements.drop_last()) + rendered(stmt_shape(statements.last()), seq![])
    }
}

} // verus!
verus! {

pub open spec fn shapes_of(kids: Seq<Tree>) -> Seq<Shape> {
    Seq::new(kids.len(), |i: int| shape_of(kids[i]))
}

fn leaf(text: String) -> (tree: Tree)
    ensures
        shape_of(tree) == Shape::Leaf(text@),
{
    Tree::Leaf(text)
}

fn node(label: String, kids: Vec<Tree>) -> (tree: Tree)
    ensures
        shape_of(tree) == Shape::Node(label@, shapes_of(kids@)),
{
    let tree = Tree::Node(label, kids);
    assert(shape_of(tree)->Node_1 =~= shapes_of(kids@));
    tree
}

/// `a` followed by `b`.
fn text_of(a: &str, b: &str) -> (out: String)
    ensures
        out@ == a@ + b@,
{
    let mut out = owned(a);
    push_str(&mut out, b);
    out
}

/// Appends `tree` shown under the indentation `pad`.
fn write(tree: &Tree, pad: &String, out: &mut String)
    ensures
        final(out)@ == old(out)@ + rendered(shape_of(*tree), pad@),
    decreases tree,
{
    match tree {
        Tree::Leaf(text) => {
            push_str(out, pad.as_str());
            push_str(out, text.as_str());
            push_str(out, "\n");
        },
        Tree::Node(label, kids) => {
            let ghost start = out@;
            push_str(out, pad.as_str());
            push_str(out, "(");
            push_str(out, label.as_str());
            push_str(out, "\n");
            let inner = text_of(pad.as_str(), "  ");
            assert(decreases_to!(*tree => (*tree)->Node_1));
            write_all(kids, &inner, out);
            push_str(out, pad.as_str());
            push_str(out, ")\n");
            assert(shape_of(*tree)->Node_1 =~= shapes_of(kids@));
        },
    }
}

fn write_all(kids: &Vec<Tree>, pad: &String, out: &mut String)
    ensures
        final(out)@ == old(out)@ + rendered_all(shapes_of(kids@), pad@),
    decreases kids,
{
    let ghost start = out@;
    let ghost all = shapes_of(kids@);
    let mut at: usize = 0;
    assert(all.take(0) =~= Seq::<Shape>::empty());
    assert(start + Seq::<char>::empty() =~= start);
    while at < kids.len()
        invariant
            at <= kids@.len(),
            all == shapes_of(kids@),
            out@ == start + rendered_all(all.take(at as int), pad@),
        decreases kids@.len() - at,
    {
        assert(decreases_to!(*kids => kids[at as int]));
        write(&kids[at], pad, out);
        assert(all.take(at + 1).drop_last() =~= all.take(at as int));
        assert(all.take(at + 1).last() == shape_of(kids@[at as int]));
        at += 1;
    }
    assert(all.take(kids@.len() as int) =~= all);
}

} // verus!
verus! {

fn node1(label: String, only: Tree) -> (tree: Tree)
    ensures
        shape_of(tree) == Shape::Node(label@, seq![shape_of(only)]),
{
    let ghost a = shape_of(only);
    let mut kids: Vec<Tree> = Vec::new();
    kids.push(only);
    let ghost held = kids@;
    assert(shapes_of(held) =~= seq![a]);
    node(label, kids)
}

fn node2(label: String, first: Tree, second: Tree) -> (tree: Tree)
    ensures
        shape_of(tree) == Shape::Node(label@, seq![shape_of(first), shape_of(second)]),
{
    let ghost a = shape_of(first);
    let ghost b = shape_of(second);
    let mut kids: Vec<Tree> = Vec::new();
    kids.push(first);
    kids.push(second);
    let ghost held = kids@;
    assert(shapes_of(held) =~= seq![a, b]);
    node(label, kids)
}

/// Appends `tree` to `into`.
fn push_tree(into: &mut Vec<Tree>, tree: Tree)
    ensures
        shapes_of(final(into)@) == shapes_of(old(into)@).push(shape_of(tree)),
{
    let ghost before = into@;
    let ghost made = shape_of(tree);
    into.push(tree);
    assert(shapes_of(into@) =~= shapes_of(before).push(made));
}

pub open spec fn expr_shapes(items: Seq<Expr>) -> Seq<Shape> {
    Seq::new(items.len(), |j: int| expr_shape(items[j]))
}

pub open spec fn entry_shapes(entries: Seq<(String, Expr)>) -> Seq<Shape> {
    Seq::new(entries.len(), |j: int| Shape::Node("entry "@ + entries[j].0@, seq![expr_shape(entries[j].1)]))
}

pub open spec fn part_shape(part: TemplatePart) -> Shape {
    match part {
        TemplatePart::Text(text) => Shape::Leaf("lit str "@ + escaped(text@)),
        TemplatePart::Expr(inner) => expr_shape(inner),
    }
}

pub open spec fn slot_shapes(slots: Seq<Slot>) -> Seq<Shape> {
    Seq::new(slots.len(), |j: int| Shape::Node(slot_label(slots[j]), seq![expr_shape(slots[j].expr)]))
}

fn literal_leaf(value: &Literal) -> (tree: Tree)
    ensures
        shape_of(tree) == Shape::Leaf(literal_text(*value)),
{
    let text = match value {
        Literal::Nothing => owned("lit nothing"),
        Literal::Int(found) => {
            let mut text = owned("lit int ");
            crate::chars::push_signed(&mut text, *found);
            text
        },
        Literal::Float(found) => text_of("lit float ", found.as_str()),
        Literal::Str(found) => {
            let mut text = owned("lit str ");
            push_escaped(&mut text, found.as_str());
            text
        },
        Literal::Bool(found) => text_of("lit bool ", if *found { "참" } else { "거짓" }),
    };
    leaf(text)
}

fn joined(verb: &str, left: Tree, right: Tree) -> (tree: Tree)
    ensures
        shape_of(tree) == joined_shape(verb@, shape_of(left), shape_of(right)),
{
    let mut label = text_of("call ", verb);
    push_str(&mut label, " tail=- neg=0 asks=0");
    node2(label, node1(owned("slot -"), left), node1(owned("slot -"), right))
}

fn slot_tree(slot: &Slot) -> (tree: Tree)
    ensures
        shape_of(tree) == Shape::Node(slot_label(*slot), seq![expr_shape(slot.expr)]),
    decreases slot,
{
    let label = text_of("slot ", marker_name(slot.marker));
    node1(label, expr_tree(&slot.expr))
}

fn slot_list(slots: &Vec<Slot>, into: &mut Vec<Tree>)
    ensures
        shapes_of(final(into)@) == shapes_of(old(into)@) + slot_shapes(slots@),
    decreases slots,
{
    let ghost start = shapes_of(into@);
    let mut at: usize = 0;
    assert(start + slot_shapes(slots@).take(0) =~= start);
    while at < slots.len()
        invariant
            at <= slots@.len(),
            shapes_of(into@) == start + slot_shapes(slots@).take(at as int),
        decreases slots@.len() - at,
    {
        assert(decreases_to!(*slots => slots[at as int]));
        let made = slot_tree(&slots[at]);
        push_tree(into, made);
        assert(slot_shapes(slots@).take(at + 1) =~= slot_shapes(slots@).take(at as int).push(shape_of(made)));
        at += 1;
    }
    assert(slot_shapes(slots@).take(slots@.len() as int) =~= slot_shapes(slots@));
}

fn call_tree(call: &CallExpr) -> (tree: Tree)
    ensures
        shape_of(tree) == call_shape(*call),
    decreases call,
{
    let mut head = text_of("call ", call.verb.as_str());
    push_str(&mut head, " tail=");
    match &call.tail {
        Some(tail) => push_str(&mut head, tail.as_str()),
        None => push_str(&mut head, "-"),
    }
    push_str(&mut head, " neg=");
    push_str(&mut head, if call.negated { "1" } else { "0" });
    push_str(&mut head, " asks=");
    push_str(&mut head, if call.asks { "1" } else { "0" });
    let mut kids: Vec<Tree> = Vec::new();
    assert(decreases_to!(*call => call.slots));
    slot_list(&call.slots, &mut kids);
    let ghost held = kids@;
    let tree = node(head, kids);
    assert(shapes_of(held) =~= call_shape(*call)->Node_1);
    tree
}

fn expr_list(items: &Vec<Expr>, into: &mut Vec<Tree>)
    ensures
        shapes_of(final(into)@) == shapes_of(old(into)@) + expr_shapes(items@),
    decreases items,
{
    let ghost start = shapes_of(into@);
    let mut at: usize = 0;
    assert(start + expr_shapes(items@).take(0) =~= start);
    while at < items.len()
        invariant
            at <= items@.len(),
            shapes_of(into@) == start + expr_shapes(items@).take(at as int),
        decreases items@.len() - at,
    {
        assert(decreases_to!(*items => items[at as int]));
        let made = expr_tree(&items[at]);
        push_tree(into, made);
        assert(expr_shapes(items@).take(at + 1) =~= expr_shapes(items@).take(at as int).push(shape_of(made)));
        at += 1;
    }
    assert(expr_shapes(items@).take(items@.len() as int) =~= expr_shapes(items@));
}

fn entry_list(entries: &Vec<(String, Expr)>, into: &mut Vec<Tree>)
    ensures
        shapes_of(final(into)@) == shapes_of(old(into)@) + entry_shapes(entries@),
    decreases entries,
{
    let ghost start = shapes_of(into@);
    let mut at: usize = 0;
    assert(start + entry_shapes(entries@).take(0) =~= start);
    while at < entries.len()
        invariant
            at <= entries@.len(),
            shapes_of(into@) == start + entry_shapes(entries@).take(at as int),
        decreases entries@.len() - at,
    {
        assert(decreases_to!(*entries => entries[at as int]));
        assert(decreases_to!(entries[at as int] => entries[at as int].1));
        let label = text_of("entry ", entries[at].0.as_str());
        let made = node1(label, expr_tree(&entries[at].1));
        push_tree(into, made);
        assert(entry_shapes(entries@).take(at + 1) =~= entry_shapes(entries@).take(at as int).push(shape_of(made)));
        at += 1;
    }
    assert(entry_shapes(entries@).take(entries@.len() as int) =~= entry_shapes(entries@));
}

fn part_list(parts: &Vec<TemplatePart>, into: &mut Vec<Tree>)
    ensures
        shapes_of(final(into)@) == shapes_of(old(into)@) + Seq::new(parts@.len(), |j: int| part_shape(parts@[j])),
    decreases parts,
{
    let ghost start = shapes_of(into@);
    let ghost all = Seq::new(parts@.len(), |j: int| part_shape(parts@[j]));
    let mut at: usize = 0;
    assert(start + all.take(0) =~= start);
    while at < parts.len()
        invariant
            at <= parts@.len(),
            all == Seq::new(parts@.len(), |j: int| part_shape(parts@[j])),
            shapes_of(into@) == start + all.take(at as int),
        decreases parts@.len() - at,
    {
        assert(decreases_to!(*parts => parts[at as int]));
        let made = match &parts[at] {
            TemplatePart::Text(text) => {
                let mut shown = owned("lit str ");
                push_escaped(&mut shown, text.as_str());
                leaf(shown)
            },
            TemplatePart::Expr(inner) => {
                assert(decreases_to!(parts[at as int] => parts[at as int]->Expr_0));
                expr_tree(inner)
            },
        };
        push_tree(into, made);
        assert(all.take(at + 1) =~= all.take(at as int).push(shape_of(made)));
        at += 1;
    }
    assert(all.take(parts@.len() as int) =~= all);
}

fn expr_tree(expr: &Expr) -> (tree: Tree)
    ensures
        shape_of(tree) == expr_shape(*expr),
    decreases expr,
{
    match expr {
        Expr::Pick { owner, key, .. } => node2(owned("pick"), expr_tree(owner), expr_tree(key)),
        Expr::Spot { owner, place, .. } => node2(owned("spot"), expr_tree(owner), expr_tree(place)),
        Expr::Literal { value, .. } => literal_leaf(value),
        Expr::Name { name, .. } => leaf(text_of("name ", name.as_str())),
        Expr::Table { items, entries, .. } => {
            let mut kids: Vec<Tree> = Vec::new();
            expr_list(items, &mut kids);
            entry_list(entries, &mut kids);
            let ghost held = kids@;
            let tree = node(owned("table"), kids);
            assert(shapes_of(held) =~= expr_shape(*expr)->Node_1);
            tree
        },
        Expr::Template { parts, .. } => {
            let mut kids: Vec<Tree> = Vec::new();
            part_list(parts, &mut kids);
            let ghost held = kids@;
            let tree = node(owned("template"), kids);
            assert(shapes_of(held) =~= expr_shape(*expr)->Node_1);
            tree
        },
        Expr::Field { owner, name, .. } => node1(text_of("field ", name.as_str()), expr_tree(owner)),
        Expr::Call(call) => call_tree(call),
        Expr::Passive(passive) => {
            let mut kids: Vec<Tree> = Vec::new();
            assert(decreases_to!(*expr => (*expr)->Passive_0));
            assert(decreases_to!((*expr)->Passive_0 => passive.head));
            push_tree(&mut kids, node1(owned("head"), expr_tree(&passive.head)));
            assert(decreases_to!((*expr)->Passive_0 => passive.slots));
            slot_list(&passive.slots, &mut kids);
            let ghost held = kids@;
            let tree = node(text_of("passive ", passive.verb.as_str()), kids);
            assert(shapes_of(held) =~= expr_shape(*expr)->Node_1);
            tree
        },
        Expr::And { left, right, .. } => joined("그리고", expr_tree(left), expr_tree(right)),
        Expr::Or { left, right, .. } => joined("또는", expr_tree(left), expr_tree(right)),
    }
}

} // verus!
verus! {

fn target_tree(target: &Target) -> (tree: Tree)
    ensures
        shape_of(tree) == target_path(target.root@, target.fields@),
{
    let mut tree = leaf(text_of("name ", target.root.as_str()));
    let ghost fields = target.fields@;
    let mut at: usize = 0;
    while at < target.fields.len()
        invariant
            at <= fields.len(),
            fields == target.fields@,
            shape_of(tree) == target_path(target.root@, fields.take(at as int)),
        decreases fields.len() - at,
    {
        assert(fields.take(at + 1).drop_last() =~= fields.take(at as int));
        assert(fields.take(at + 1).last() == fields[at as int]);
        tree = match &target.fields[at] {
            Selector::Name(name) => node1(text_of("field ", name.as_str()), tree),
            Selector::Pick(key) => node2(owned("pick"), tree, expr_tree(key)),
            Selector::Spot(place) => node2(owned("spot"), tree, expr_tree(place)),
        };
        at += 1;
    }
    assert(fields.take(fields.len() as int) =~= fields);
    tree
}

fn names_line(names: &Vec<String>, into: &mut String)
    ensures
        final(into)@ == old(into)@ + names_text(names@),
{
    let ghost start = into@;
    let mut at: usize = 0;
    assert(start + names_text(names@.take(0)) =~= start);
    while at < names.len()
        invariant
            at <= names@.len(),
            into@ == start + names_text(names@.take(at as int)),
        decreases names@.len() - at,
    {
        assert(names@.take(at + 1).drop_last() =~= names@.take(at as int));
        assert(names@.take(at + 1).last() == names@[at as int]);
        if at > 0 {
            push_str(into, " ");
        }
        push_str(into, names[at].as_str());
        at += 1;
    }
    assert(names@.take(names@.len() as int) =~= names@);
}

fn params_line(params: &Vec<(Marker, String)>, into: &mut String)
    ensures
        final(into)@ == old(into)@ + params_text(params@),
{
    let ghost start = into@;
    let mut at: usize = 0;
    assert(start + params_text(params@.take(0)) =~= start);
    while at < params.len()
        invariant
            at <= params@.len(),
            into@ == start + params_text(params@.take(at as int)),
        decreases params@.len() - at,
    {
        assert(params@.take(at + 1).drop_last() =~= params@.take(at as int));
        assert(params@.take(at + 1).last() == params@[at as int]);
        if at > 0 {
            push_str(into, " ");
        }
        push_str(into, marker_name(params[at].0));
        push_str(into, ":");
        push_str(into, params[at].1.as_str());
        at += 1;
    }
    assert(params@.take(params@.len() as int) =~= params@);
}

pub open spec fn stmt_shapes(body: Seq<Stmt>) -> Seq<Shape> {
    Seq::new(body.len(), |j: int| stmt_shape(body[j]))
}

fn block_tree(label: &str, body: &Vec<Stmt>) -> (tree: Tree)
    ensures
        shape_of(tree) == block_shape(label@, body@),
    decreases body,
{
    let mut kids: Vec<Tree> = Vec::new();
    let mut at: usize = 0;
    assert(shapes_of(kids@) =~= stmt_shapes(body@).take(0));
    while at < body.len()
        invariant
            at <= body@.len(),
            shapes_of(kids@) == stmt_shapes(body@).take(at as int),
        decreases body@.len() - at,
    {
        assert(decreases_to!(*body => body[at as int]));
        let made = statement_tree(&body[at]);
        push_tree(&mut kids, made);
        assert(stmt_shapes(body@).take(at + 1) =~= stmt_shapes(body@).take(at as int).push(shape_of(made)));
        at += 1;
    }
    let ghost held = kids@;
    let tree = node(owned(label), kids);
    assert(shapes_of(held) =~= block_shape(label@, body@)->Node_1);
    tree
}

pub open spec fn branch_shapes(branches: Seq<(Expr, Vec<Stmt>)>) -> Seq<Shape> {
    Seq::new(branches.len(), |j: int| Shape::Node("branch"@, seq![
        Shape::Node("test"@, seq![expr_shape(branches[j].0)]),
        block_shape("body"@, branches[j].1@),
    ]))
}

fn branch_list(branches: &Vec<(Expr, Vec<Stmt>)>, into: &mut Vec<Tree>)
    ensures
        shapes_of(final(into)@) == shapes_of(old(into)@) + branch_shapes(branches@),
    decreases branches,
{
    let ghost start = shapes_of(into@);
    let mut at: usize = 0;
    assert(start + branch_shapes(branches@).take(0) =~= start);
    while at < branches.len()
        invariant
            at <= branches@.len(),
            shapes_of(into@) == start + branch_shapes(branches@).take(at as int),
        decreases branches@.len() - at,
    {
        assert(decreases_to!(*branches => branches[at as int]));
        assert(decreases_to!(branches[at as int] => branches[at as int].1));
        let test = node1(owned("test"), expr_tree(&branches[at].0));
        let made = node2(owned("branch"), test, block_tree("body", &branches[at].1));
        push_tree(into, made);
        assert(branch_shapes(branches@).take(at + 1) =~= branch_shapes(branches@).take(at as int).push(shape_of(made)));
        at += 1;
    }
    assert(branch_shapes(branches@).take(branches@.len() as int) =~= branch_shapes(branches@));
}

pub open spec fn assign_shapes(assigns: Seq<(Target, Expr)>) -> Seq<Shape> {
    Seq::new(2 * assigns.len(), |i: int| if i % 2 == 0 {
        Shape::Node("target"@, seq![target_path(assigns[i / 2].0.root@, assigns[i / 2].0.fields@)])
    } else {
        Shape::Node("value"@, seq![expr_shape(assigns[i / 2].1)])
    })
}

fn assign_list(assigns: &Vec<(Target, Expr)>, into: &mut Vec<Tree>)
    ensures
        shapes_of(final(into)@) == shapes_of(old(into)@) + assign_shapes(assigns@),
{
    let ghost start = shapes_of(into@);
    let ghost all = assign_shapes(assigns@);
    let mut at: usize = 0;
    assert(start + all.take(0) =~= start);
    while at < assigns.len()
        invariant
            at <= assigns@.len(),
            all == assign_shapes(assigns@),
            shapes_of(into@) == start + all.take(2 * at),
        decreases assigns@.len() - at,
    {
        let target = node1(owned("target"), target_tree(&assigns[at].0));
        let value = node1(owned("value"), expr_tree(&assigns[at].1));
        assert(all[2 * at as int] == shape_of(target));
        assert(all[2 * at + 1] == shape_of(value));
        push_tree(into, target);
        push_tree(into, value);
        assert(all.take(2 * at + 2) =~= all.take(2 * at).push(shape_of(target)).push(shape_of(value)));
        at += 1;
    }
    assert(all.take(2 * assigns@.len() as int) =~= all);
}

} // verus!
verus! {

fn call_list(calls: &Vec<CallExpr>, into: &mut Vec<Tree>)
    ensures
        shapes_of(final(into)@) == shapes_of(old(into)@) + Seq::new(calls@.len(), |j: int| call_shape(calls@[j])),
{
    let ghost start = shapes_of(into@);
    let ghost all = Seq::new(calls@.len(), |j: int| call_shape(calls@[j]));
    let mut at: usize = 0;
    assert(start + all.take(0) =~= start);
    while at < calls.len()
        invariant
            at <= calls@.len(),
            all == Seq::new(calls@.len(), |j: int| call_shape(calls@[j])),
            shapes_of(into@) == start + all.take(at as int),
        decreases calls@.len() - at,
    {
        let made = call_tree(&calls[at]);
        push_tree(into, made);
        assert(all.take(at + 1) =~= all.take(at as int).push(shape_of(made)));
        at += 1;
    }
    assert(all.take(calls@.len() as int) =~= all);
}

fn statement_tree(statement: &Stmt) -> (tree: Tree)
    ensures
        shape_of(tree) == stmt_shape(*statement),
    decreases statement,
{
    match statement {
        Stmt::Declare { assigns, .. } => {
            let mut kids: Vec<Tree> = Vec::new();
            assign_list(assigns, &mut kids);
            let ghost held = kids@;
            let tree = node(owned("declare"), kids);
            assert(shapes_of(held) =~= stmt_shape(*statement)->Node_1);
            tree
        },
        Stmt::Exec { calls, .. } => {
            let mut kids: Vec<Tree> = Vec::new();
            call_list(calls, &mut kids);
            let ghost held = kids@;
            let tree = node(owned("exec"), kids);
            assert(shapes_of(held) =~= stmt_shape(*statement)->Node_1);
            tree
        },
        Stmt::Value { expr, .. } => node1(owned("value"), expr_tree(expr)),
        Stmt::If { branches, otherwise, .. } => {
            let mut kids: Vec<Tree> = Vec::new();
            assert(decreases_to!(*statement => (*statement)->If_branches));
            branch_list(branches, &mut kids);
            match otherwise {
                Some(body) => {
                    assert(decreases_to!(*statement => (*statement)->If_otherwise));
                    assert(decreases_to!((*statement)->If_otherwise => (*statement)->If_otherwise->Some_0));
                    push_tree(&mut kids, block_tree("otherwise", body));
                },
                None => {},
            }
            let ghost held = kids@;
            let tree = node(owned("if"), kids);
            assert(shapes_of(held) =~= stmt_shape(*statement)->Node_1);
            tree
        },
        Stmt::Loop { kind, body, .. } => {
            assert(decreases_to!(*statement => (*statement)->Loop_body));
            match kind {
                LoopKind::Each { variable, over } => node2(
                    text_of("each ", variable.as_str()),
                    node1(owned("over"), expr_tree(over)),
                    block_tree("body", body),
                ),
                LoopKind::Range { variable, start, stop, step } => {
                    let mut kids: Vec<Tree> = Vec::new();
                    push_tree(&mut kids, node1(owned("start"), expr_tree(start)));
                    push_tree(&mut kids, node1(owned("stop"), expr_tree(stop)));
                    match step {
                        Some(by) => push_tree(&mut kids, node1(owned("step"), expr_tree(by))),
                        None => {},
                    }
                    push_tree(&mut kids, block_tree("body", body));
                    let ghost held = kids@;
                    let tree = node(text_of("loop range ", variable.as_str()), kids);
                    assert(shapes_of(held) =~= stmt_shape(*statement)->Node_1);
                    tree
                },
                LoopKind::While { test } => node2(
                    owned("loop while"),
                    node1(owned("test"), expr_tree(test)),
                    block_tree("body", body),
                ),
            }
        },
        Stmt::Break { .. } => leaf(owned("break")),
        Stmt::Continue { .. } => leaf(owned("continue")),
        Stmt::Return { value, .. } => node1(owned("return"), expr_tree(value)),
        Stmt::Define { name, params, body, .. } => {
            let mut label = text_of("define ", name.as_str());
            push_str(&mut label, " [");
            params_line(params, &mut label);
            push_str(&mut label, "]");
            assert(decreases_to!(*statement => (*statement)->Define_body));
            node1(label, block_tree("body", body))
        },
        Stmt::Noun { name, owner, body, .. } => {
            let mut label = text_of("noun ", name.as_str());
            push_str(&mut label, " of ");
            push_str(&mut label, owner.as_str());
            assert(decreases_to!(*statement => (*statement)->Noun_body));
            node1(label, block_tree("body", body))
        },
        Stmt::Import { module, names, .. } => {
            let mut line = text_of("import ", module.as_str());
            push_str(&mut line, " [");
            match names {
                Some(found) => names_line(found, &mut line),
                None => push_str(&mut line, "*"),
            }
            push_str(&mut line, "]");
            leaf(line)
        },
    }
}

/// The syntax dump of a program: each statement as an indented tree.
pub fn ast(statements: &Vec<Stmt>) -> (out: String)
    ensures
        out@ == ast_text(statements@),
{
    let mut out = String::new();
    let no_pad = String::new();
    let mut at: usize = 0;
    assert(statements@.take(0) =~= Seq::<Stmt>::empty());
    while at < statements.len()
        invariant
            at <= statements@.len(),
            no_pad@ == Seq::<char>::empty(),
            out@ == ast_text(statements@.take(at as int)),
        decreases statements@.len() - at,
    {
        let tree = statement_tree(&statements[at]);
        write(&tree, &no_pad, &mut out);
        assert(statements@.take(at + 1).drop_last() =~= statements@.take(at as int));
        assert(statements@.take(at + 1).last() == statements@[at as int]);
        at += 1;
    }
    assert(statements@.take(statements@.len() as int) =~= statements@);
    out
}

} // verus!
verus! {

/// How the lowered-program dump names a built-in operation: by its name
/// in the code.
pub open spec fn op_text(op: Builtin) -> Seq<char> {
    match op {
        Builtin::Print => "Print"@,
        Builtin::Stop => "Stop"@,
        Builtin::Convert => "Convert"@,
        Builtin::Join => "Join"@,
        Builtin::JoinWith => "JoinWith"@,
        Builtin::Add => "Add"@,
        Builtin::AddCopy => "AddCopy"@,
        Builtin::Sub => "Sub"@,
        Builtin::Mul => "Mul"@,
        Builtin::Div => "Div"@,
        Builtin::Rem => "Rem"@,
        Builtin::Greater => "Greater"@,
        Builtin::Less => "Less"@,
        Builtin::Equal => "Equal"@,
        Builtin::Truthy => "Truthy"@,
        Builtin::StartsWith => "StartsWith"@,
        Builtin::Contains => "Contains"@,
        Builtin::EndsWith => "EndsWith"@,
        Builtin::Trim => "Trim"@,
        Builtin::Split => "Split"@,
        Builtin::Read => "Read"@,
        Builtin::ReadLine => "ReadLine"@,
        Builtin::Open => "Open"@,
        Builtin::Write => "Write"@,
        Builtin::Nothing => "Nothing"@,
    }
}

pub fn op_name(op: Builtin) -> (found: &'static str)
    ensures
        found@ == op_text(op),
{
    match op {
        Builtin::Print => "Print",
        Builtin::Stop => "Stop",
        Builtin::Convert => "Convert",
        Builtin::Join => "Join",
        Builtin::JoinWith => "JoinWith",
        Builtin::Add => "Add",
        Builtin::AddCopy => "AddCopy",
        Builtin::Sub => "Sub",
        Builtin::Mul => "Mul",
        Builtin::Div => "Div",
        Builtin::Rem => "Rem",
        Builtin::Greater => "Greater",
        Builtin::Less => "Less",
        Builtin::Equal => "Equal",
        Builtin::Truthy => "Truthy",
        Builtin::StartsWith => "StartsWith",
        Builtin::Contains => "Contains",
        Builtin::EndsWith => "EndsWith",
        Builtin::Trim => "Trim",
        Builtin::Split => "Split",
        Builtin::Read => "Read",
        Builtin::ReadLine => "ReadLine",
        Builtin::Open => "Open",
        Builtin::Write => "Write",
        Builtin::Nothing => "Nothing",
    }
}

pub open spec fn place_text(place: Place) -> Seq<char> {
    match place {
        Place::Local(slot) => "local "@ + decimal(slot as nat),
        Place::Global(slot) => "global "@ + decimal(slot as nat),
    }
}

/// Every symbol in a lowered expression is one of `names`.
pub open spec fn hexpr_named(expr: HExpr, names: Seq<Seq<char>>) -> bool
    decreases expr,
{
    match expr {
        HExpr::Table(items, entries) => hexprs_named(items@, names) && hentries_named(entries@, names),
        HExpr::Template(parts) => hexprs_named(parts@, names),
        HExpr::Field { owner, field, .. } => hexpr_named(*owner, names) && (field as int) < names.len(),
        HExpr::Index { owner, place, .. } => hexpr_named(*owner, names) && hexpr_named(*place, names),
        HExpr::Pick { owner, key, .. } => hexpr_named(*owner, names) && hexpr_named(*key, names),
        HExpr::Call { args, .. } => hexprs_named(args@, names),
        HExpr::Not(inner) => hexpr_named(*inner, names),
        HExpr::Ask { value, verb, .. } => hexpr_named(*value, names) && (verb as int) < names.len(),
        HExpr::And(left, right) => hexpr_named(*left, names) && hexpr_named(*right, names),
        HExpr::Or(left, right) => hexpr_named(*left, names) && hexpr_named(*right, names),
        _ => true,
    }
}

pub open spec fn hexprs_named(items: Seq<HExpr>, names: Seq<Seq<char>>) -> bool
    decreases items,
{
    if items.len() == 0 {
        true
    } else {
        hexprs_named(items.drop_last(), names) && hexpr_named(items.last(), names)
    }
}

pub open spec fn hentries_named(entries: Seq<(Symbol, HExpr)>, names: Seq<Seq<char>>) -> bool
    decreases entries,
{
    if entries.len() == 0 {
        true
    } else {
        hentries_named(entries.drop_last(), names) && (entries.last().0 as int) < names.len()
            && hexpr_named(entries.last().1, names)
    }
}

/// Every symbol in a lowered statement is one of `names`.
pub open spec fn hstmt_named(statement: HStmt, names: Seq<Seq<char>>) -> bool
    decreases statement,
{
    match statement {
        HStmt::Assign { value, .. } => hexpr_named(value, names),
        HStmt::SetField { owner, field, value, .. } => hexpr_named(owner, names) && (field as int) < names.len()
            && hexpr_named(value, names),
        HStmt::SetAt { owner, place, value, .. } => hexpr_named(owner, names) && hexpr_named(place, names)
            && hexpr_named(value, names),
        HStmt::SetPick { owner, key, value, .. } => hexpr_named(owner, names) && hexpr_named(key, names)
            && hexpr_named(value, names),
        HStmt::Eval(value) => hexpr_named(value, names),
        HStmt::If { branches, otherwise } => hbranches_named(branches@, names) && match otherwise {
            Some(body) => hblock_named(body@, names),
            None => true,
        },
        HStmt::Range { start, stop, step, body, .. } => hexpr_named(start, names) && hexpr_named(stop, names)
            && match step {
                Some(by) => hexpr_named(by, names),
                None => true,
            } && hblock_named(body@, names),
        HStmt::Each { over, body, .. } => hexpr_named(over, names) && hblock_named(body@, names),
        HStmt::While { test, body } => hexpr_named(test, names) && hblock_named(body@, names),
        HStmt::Break => true,
        HStmt::Continue => true,
        HStmt::Return { value, .. } => hexpr_named(value, names),
    }
}

pub open spec fn hblock_named(body: Seq<HStmt>, names: Seq<Seq<char>>) -> bool
    decreases body,
{
    if body.len() == 0 {
        true
    } else {
        hblock_named(body.drop_last(), names) && hstmt_named(body.last(), names)
    }
}

pub open spec fn hbranches_named(branches: Seq<(HExpr, Vec<HStmt>)>, names: Seq<Seq<char>>) -> bool
    decreases branches,
{
    if branches.len() == 0 {
        true
    } else {
        hbranches_named(branches.drop_last(), names) && hexpr_named(branches.last().0, names)
            && hblock_named(branches.last().1@, names)
    }
}

pub open spec fn hexpr_shape(expr: HExpr, names: Seq<Seq<char>>) -> Shape
    decreases expr,
{
    match expr {
        HExpr::Pick { owner, key, .. } => Shape::Node("pick"@, seq![hexpr_shape(*owner, names), hexpr_shape(*key, names)]),
        HExpr::Int(value) => Shape::Leaf("int "@ + crate::chars::signed_decimal(value as int)),
        HExpr::Float(text) => Shape::Leaf("float "@ + text@),
        HExpr::Str(text) => Shape::Leaf("str "@ + escaped(text@)),
        HExpr::Bool(value) => Shape::Leaf("bool "@ + if value { "참"@ } else { "거짓"@ }),
        HExpr::Nothing => Shape::Leaf("nothing"@),
        HExpr::Local(slot) => Shape::Leaf("local "@ + decimal(slot as nat)),
        HExpr::Global(slot) => Shape::Leaf("global "@ + decimal(slot as nat)),
        HExpr::Table(items, entries) => Shape::Node(
            "table"@,
            Seq::new(items@.len(), |i: int| if 0 <= i < items@.len() { hexpr_shape(items@[i], names) } else { Shape::Leaf(seq![]) })
            + Seq::new(entries@.len(), |i: int| if 0 <= i < entries@.len() {
                Shape::Node("entry "@ + names[entries@[i].0 as int], seq![hexpr_shape(entries@[i].1, names)])
            } else {
                Shape::Leaf(seq![])
            }),
        ),
        HExpr::Template(parts) => Shape::Node(
            "template"@,
            Seq::new(parts@.len(), |i: int| if 0 <= i < parts@.len() { hexpr_shape(parts@[i], names) } else { Shape::Leaf(seq![]) }),
        ),
        HExpr::Field { owner, field, .. } => Shape::Node("field "@ + names[field as int], seq![hexpr_shape(*owner, names)]),
        HExpr::Index { owner, place, .. } => Shape::Node("index"@, seq![hexpr_shape(*owner, names), hexpr_shape(*place, names)]),
        HExpr::Call { callee, args, .. } => Shape::Node(
            match callee {
                Callee::User(func) => "call #"@ + decimal(func as nat),
                Callee::Op(op) => "call "@ + op_text(op),
            },
            Seq::new(args@.len(), |i: int| if 0 <= i < args@.len() { hexpr_shape(args@[i], names) } else { Shape::Leaf(seq![]) }),
        ),
        HExpr::Not(inner) => Shape::Node("not"@, seq![hexpr_shape(*inner, names)]),
        HExpr::Ask { value, verb, .. } => Shape::Node("ask "@ + names[verb as int], seq![hexpr_shape(*value, names)]),
        HExpr::And(left, right) => Shape::Node("and"@, seq![hexpr_shape(*left, names), hexpr_shape(*right, names)]),
        HExpr::Or(left, right) => Shape::Node("or"@, seq![hexpr_shape(*left, names), hexpr_shape(*right, names)]),
    }
}

pub open spec fn hblock_shape(label: Seq<char>, body: Seq<HStmt>, names: Seq<Seq<char>>) -> Shape
    decreases body,
{
    Shape::Node(label, Seq::new(body.len(), |i: int| if 0 <= i < body.len() { hstmt_shape(body[i], names) } else { Shape::Leaf(seq![]) }))
}

pub open spec fn hstmt_shape(statement: HStmt, names: Seq<Seq<char>>) -> Shape
    decreases statement,
{
    match statement {
        HStmt::SetAt { owner, place, value, .. } => Shape::Node(
            "set at"@,
            seq![hexpr_shape(owner, names), hexpr_shape(place, names), hexpr_shape(value, names)],
        ),
        HStmt::Each { place, over, body, .. } => Shape::Node(
            "each "@ + place_text(place),
            seq![hexpr_shape(over, names), hblock_shape("body"@, body@, names)],
        ),
        HStmt::SetPick { owner, key, value, .. } => Shape::Node(
            "set pick"@,
            seq![hexpr_shape(owner, names), hexpr_shape(key, names), hexpr_shape(value, names)],
        ),
        HStmt::Assign { place, value } => Shape::Node("set "@ + place_text(place), seq![hexpr_shape(value, names)]),
        HStmt::SetField { owner, field, value, .. } => Shape::Node(
            "setfield "@ + names[field as int],
            seq![hexpr_shape(owner, names), hexpr_shape(value, names)],
        ),
        HStmt::Eval(value) => Shape::Node("eval"@, seq![hexpr_shape(value, names)]),
        HStmt::If { branches, otherwise } => Shape::Node(
            "if"@,
            Seq::new(branches@.len(), |i: int| if 0 <= i < branches@.len() {
                Shape::Node("branch"@, seq![
                    Shape::Node("test"@, seq![hexpr_shape(branches@[i].0, names)]),
                    hblock_shape("body"@, branches@[i].1@, names),
                ])
            } else {
                Shape::Leaf(seq![])
            }) + match otherwise {
                Some(body) => seq![hblock_shape("otherwise"@, body@, names)],
                None => seq![],
            },
        ),
        HStmt::Range { place, start, stop, step, body, .. } => Shape::Node(
            "range "@ + place_text(place),
            seq![Shape::Node("start"@, seq![hexpr_shape(start, names)]), Shape::Node("stop"@, seq![hexpr_shape(stop, names)])]
            + match step {
                Some(by) => seq![Shape::Node("step"@, seq![hexpr_shape(by, names)])],
                None => seq![],
            }
            + seq![hblock_shape("body"@, body@, names)],
        ),
        HStmt::While { test, body } => Shape::Node(
            "while"@,
            seq![Shape::Node("test"@, seq![hexpr_shape(test, names)]), hblock_shape("body"@, body@, names)],
        ),
        HStmt::Break => Shape::Leaf("break"@),
        HStmt::Continue => Shape::Leaf("continue"@),
        HStmt::Return { value, .. } => Shape::Node("return"@, seq![hexpr_shape(value, names)]),
    }
}

} // verus!
verus! {

proof fn lemma_hexprs_at(items: Seq<HExpr>, names: Seq<Seq<char>>, i: int)
    requires
        hexprs_named(items, names),
        0 <= i < items.len(),
    ensures
        hexpr_named(items[i], names),
    decreases items.len(),
{
    if i < items.len() - 1 {
        lemma_hexprs_at(items.drop_last(), names, i);
    }
}

proof fn lemma_hentries_at(entries: Seq<(Symbol, HExpr)>, names: Seq<Seq<char>>, i: int)
    requires
        hentries_named(entries, names),
        0 <= i < entries.len(),
    ensures
        (entries[i].0 as int) < names.len(),
        hexpr_named(entries[i].1, names),
    decreases entries.len(),
{
    if i < entries.len() - 1 {
        lemma_hentries_at(entries.drop_last(), names, i);
    }
}

proof fn lemma_hblock_at(body: Seq<HStmt>, names: Seq<Seq<char>>, i: int)
    requires
        hblock_named(body, names),
        0 <= i < body.len(),
    ensures
        hstmt_named(body[i], names),
    decreases body.len(),
{
    if i < body.len() - 1 {
        lemma_hblock_at(body.drop_last(), names, i);
    }
}

proof fn lemma_hbranches_at(branches: Seq<(HExpr, Vec<HStmt>)>, names: Seq<Seq<char>>, i: int)
    requires
        hbranches_named(branches, names),
        0 <= i < branches.len(),
    ensures
        hexpr_named(branches[i].0, names),
        hblock_named(branches[i].1@, names),
    decreases branches.len(),
{
    if i < branches.len() - 1 {
        lemma_hbranches_at(branches.drop_last(), names, i);
    }
}

fn place_label(head: &str, place: Place) -> (out: String)
    ensures
        out@ == head@ + place_text(place),
{
    let mut out = owned(head);
    match place {
        Place::Local(slot) => {
            push_str(&mut out, "local ");
            crate::chars::push_decimal(&mut out, slot as u64);
        },
        Place::Global(slot) => {
            push_str(&mut out, "global ");
            crate::chars::push_decimal(&mut out, slot as u64);
        },
    }
    out
}

fn hexpr_list(names: &Interner, items: &Vec<HExpr>, into: &mut Vec<Tree>)
    requires
        hexprs_named(items@, names@),
    ensures
        shapes_of(final(into)@) == shapes_of(old(into)@) + Seq::new(items@.len(), |j: int| hexpr_shape(items@[j], names@)),
    decreases items,
{
    let ghost start = shapes_of(into@);
    let ghost all = Seq::new(items@.len(), |j: int| hexpr_shape(items@[j], names@));
    let mut at: usize = 0;
    assert(start + all.take(0) =~= start);
    while at < items.len()
        invariant
            at <= items@.len(),
            hexprs_named(items@, names@),
            all == Seq::new(items@.len(), |j: int| hexpr_shape(items@[j], names@)),
            shapes_of(into@) == start + all.take(at as int),
        decreases items@.len() - at,
    {
        proof {
            lemma_hexprs_at(items@, names@, at as int);
        }
        assert(decreases_to!(*items => items[at as int]));
        let made = hir_expr(names, &items[at]);
        push_tree(into, made);
        assert(all.take(at + 1) =~= all.take(at as int).push(shape_of(made)));
        at += 1;
    }
    assert(all.take(items@.len() as int) =~= all);
}

fn hentry_list(names: &Interner, entries: &Vec<(Symbol, HExpr)>, into: &mut Vec<Tree>)
    requires
        hentries_named(entries@, names@),
    ensures
        shapes_of(final(into)@) == shapes_of(old(into)@) + Seq::new(entries@.len(), |j: int|
            Shape::Node("entry "@ + names@[entries@[j].0 as int], seq![hexpr_shape(entries@[j].1, names@)])),
    decreases entries,
{
    let ghost start = shapes_of(into@);
    let ghost all = Seq::new(entries@.len(), |j: int|
        Shape::Node("entry "@ + names@[entries@[j].0 as int], seq![hexpr_shape(entries@[j].1, names@)]));
    let mut at: usize = 0;
    assert(start + all.take(0) =~= start);
    while at < entries.len()
        invariant
            at <= entries@.len(),
            hentries_named(entries@, names@),
            all == Seq::new(entries@.len(), |j: int|
                Shape::Node("entry "@ + names@[entries@[j].0 as int], seq![hexpr_shape(entries@[j].1, names@)])),
            shapes_of(into@) == start + all.take(at as int),
        decreases entries@.len() - at,
    {
        proof {
            lemma_hentries_at(entries@, names@, at as int);
        }
        assert(decreases_to!(*entries => entries[at as int]));
        assert(decreases_to!(entries[at as int] => entries[at as int].1));
        let label = text_of("entry ", names.name(entries[at].0));
        let made = node1(label, hir_expr(names, &entries[at].1));
        push_tree(into, made);
        assert(all.take(at + 1) =~= all.take(at as int).push(shape_of(made)));
        at += 1;
    }
    assert(all.take(entries@.len() as int) =~= all);
}

fn hir_expr(names: &Interner, expr: &HExpr) -> (tree: Tree)
    requires
        hexpr_named(*expr, names@),
    ensures
        shape_of(tree) == hexpr_shape(*expr, names@),
    decreases expr,
{
    match expr {
        HExpr::Pick { owner, key, .. } => node2(owned("pick"), hir_expr(names, owner), hir_expr(names, key)),
        HExpr::Int(value) => {
            let mut text = owned("int ");
            crate::chars::push_signed(&mut text, *value);
            leaf(text)
        },
        HExpr::Float(text) => leaf(text_of("float ", text.as_str())),
        HExpr::Str(text) => {
            let mut shown = owned("str ");
            push_escaped(&mut shown, text.as_str());
            leaf(shown)
        },
        HExpr::Bool(value) => leaf(text_of("bool ", if *value { "참" } else { "거짓" })),
        HExpr::Nothing => leaf(owned("nothing")),
        HExpr::Local(slot) => {
            let mut text = owned("local ");
            crate::chars::push_decimal(&mut text, *slot as u64);
            leaf(text)
        },
        HExpr::Global(slot) => {
            let mut text = owned("global ");
            crate::chars::push_decimal(&mut text, *slot as u64);
            leaf(text)
        },
        HExpr::Table(items, entries) => {
            let mut kids: Vec<Tree> = Vec::new();
            hexpr_list(names, items, &mut kids);
            hentry_list(names, entries, &mut kids);
            let ghost held = kids@;
            let tree = node(owned("table"), kids);
            assert(shapes_of(held) =~= hexpr_shape(*expr, names@)->Node_1);
            tree
        },
        HExpr::Template(parts) => {
            let mut kids: Vec<Tree> = Vec::new();
            hexpr_list(names, parts, &mut kids);
            let ghost held = kids@;
            let tree = node(owned("template"), kids);
            assert(shapes_of(held) =~= hexpr_shape(*expr, names@)->Node_1);
            tree
        },
        HExpr::Field { owner, field, .. } => node1(text_of("field ", names.name(*field)), hir_expr(names, owner)),
        HExpr::Index { owner, place, .. } => node2(owned("index"), hir_expr(names, owner), hir_expr(names, place)),
        HExpr::Call { callee, args, .. } => {
            let label = match callee {
                Callee::User(func) => {
                    let mut label = owned("call #");
                    crate::chars::push_decimal(&mut label, *func as u64);
                    label
                },
                Callee::Op(op) => text_of("call ", op_name(*op)),
            };
            let mut kids: Vec<Tree> = Vec::new();
            hexpr_list(names, args, &mut kids);
            let ghost held = kids@;
            let tree = node(label, kids);
            assert(shapes_of(held) =~= hexpr_shape(*expr, names@)->Node_1);
            tree
        },
        HExpr::Not(inner) => node1(owned("not"), hir_expr(names, inner)),
        HExpr::Ask { value, verb, .. } => node1(text_of("ask ", names.name(*verb)), hir_expr(names, value)),
        HExpr::And(left, right) => node2(owned("and"), hir_expr(names, left), hir_expr(names, right)),
        HExpr::Or(left, right) => node2(owned("or"), hir_expr(names, left), hir_expr(names, right)),
    }
}

} // verus!
verus! {

fn hir_block(names: &Interner, label: &str, body: &Vec<HStmt>) -> (tree: Tree)
    requires
        hblock_named(body@, names@),
    ensures
        shape_of(tree) == hblock_shape(label@, body@, names@),
    decreases body,
{
    let ghost all = Seq::new(body@.len(), |j: int| hstmt_shape(body@[j], names@));
    let mut kids: Vec<Tree> = Vec::new();
    let mut at: usize = 0;
    assert(shapes_of(kids@) =~= all.take(0));
    while at < body.len()
        invariant
            at <= body@.len(),
            hblock_named(body@, names@),
            all == Seq::new(body@.len(), |j: int| hstmt_shape(body@[j], names@)),
            shapes_of(kids@) == all.take(at as int),
        decreases body@.len() - at,
    {
        proof {
            lemma_hblock_at(body@, names@, at as int);
        }
        assert(decreases_to!(*body => body[at as int]));
        let made = hir_stmt(names, &body[at]);
        push_tree(&mut kids, made);
        assert(all.take(at + 1) =~= all.take(at as int).push(shape_of(made)));
        at += 1;
    }
    let ghost held = kids@;
    let tree = node(owned(label), kids);
    assert(shapes_of(held) =~= hblock_shape(label@, body@, names@)->Node_1);
    tree
}

fn hbranch_list(names: &Interner, branches: &Vec<(HExpr, Vec<HStmt>)>, into: &mut Vec<Tree>)
    requires
        hbranches_named(branches@, names@),
    ensures
        shapes_of(final(into)@) == shapes_of(old(into)@) + Seq::new(branches@.len(), |j: int|
            Shape::Node("branch"@, seq![
                Shape::Node("test"@, seq![hexpr_shape(branches@[j].0, names@)]),
                hblock_shape("body"@, branches@[j].1@, names@),
            ])),
    decreases branches,
{
    let ghost start = shapes_of(into@);
    let ghost all = Seq::new(branches@.len(), |j: int|
        Shape::Node("branch"@, seq![
            Shape::Node("test"@, seq![hexpr_shape(branches@[j].0, names@)]),
            hblock_shape("body"@, branches@[j].1@, names@),
        ]));
    let mut at: usize = 0;
    assert(start + all.take(0) =~= start);
    while at < branches.len()
        invariant
            at <= branches@.len(),
            hbranches_named(branches@, names@),
            all == Seq::new(branches@.len(), |j: int|
                Shape::Node("branch"@, seq![
                    Shape::Node("test"@, seq![hexpr_shape(branches@[j].0, names@)]),
                    hblock_shape("body"@, branches@[j].1@, names@),
                ])),
            shapes_of(into@) == start + all.take(at as int),
        decreases branches@.len() - at,
    {
        proof {
            lemma_hbranches_at(branches@, names@, at as int);
        }
        assert(decreases_to!(*branches => branches[at as int]));
        assert(decreases_to!(branches[at as int] => branches[at as int].1));
        let test = node1(owned("test"), hir_expr(names, &branches[at].0));
        let made = node2(owned("branch"), test, hir_block(names, "body", &branches[at].1));
        push_tree(into, made);
        assert(all.take(at + 1) =~= all.take(at as int).push(shape_of(made)));
        at += 1;
    }
    assert(all.take(branches@.len() as int) =~= all);
}

fn hir_stmt(names: &Interner, statement: &HStmt) -> (tree: Tree)
    requires
        hstmt_named(*statement, names@),
    ensures
        shape_of(tree) == hstmt_shape(*statement, names@),
    decreases statement,
{
    match statement {
        HStmt::SetAt { owner, place, value, .. } => {
            let mut kids: Vec<Tree> = Vec::new();
            push_tree(&mut kids, hir_expr(names, owner));
            push_tree(&mut kids, hir_expr(names, place));
            push_tree(&mut kids, hir_expr(names, value));
            let ghost held = kids@;
            let tree = node(owned("set at"), kids);
            assert(shapes_of(held) =~= hstmt_shape(*statement, names@)->Node_1);
            tree
        },
        HStmt::Each { place, over, body, .. } => {
            assert(decreases_to!(*statement => (*statement)->Each_body));
            node2(place_label("each ", *place), hir_expr(names, over), hir_block(names, "body", body))
        },
        HStmt::SetPick { owner, key, value, .. } => {
            let mut kids: Vec<Tree> = Vec::new();
            push_tree(&mut kids, hir_expr(names, owner));
            push_tree(&mut kids, hir_expr(names, key));
            push_tree(&mut kids, hir_expr(names, value));
            let ghost held = kids@;
            let tree = node(owned("set pick"), kids);
            assert(shapes_of(held) =~= hstmt_shape(*statement, names@)->Node_1);
            tree
        },
        HStmt::Assign { place, value } => node1(place_label("set ", *place), hir_expr(names, value)),
        HStmt::SetField { owner, field, value, .. } => node2(
            text_of("setfield ", names.name(*field)),
            hir_expr(names, owner),
            hir_expr(names, value),
        ),
        HStmt::Eval(value) => node1(owned("eval"), hir_expr(names, value)),
        HStmt::If { branches, otherwise } => {
            let mut kids: Vec<Tree> = Vec::new();
            assert(decreases_to!(*statement => (*statement)->If_branches));
            hbranch_list(names, branches, &mut kids);
            match otherwise {
                Some(body) => {
                    assert(decreases_to!(*statement => (*statement)->If_otherwise));
                    assert(decreases_to!((*statement)->If_otherwise => (*statement)->If_otherwise->Some_0));
                    push_tree(&mut kids, hir_block(names, "otherwise", body));
                },
                None => {},
            }
            let ghost held = kids@;
            let tree = node(owned("if"), kids);
            assert(shapes_of(held) =~= hstmt_shape(*statement, names@)->Node_1);
            tree
        },
        HStmt::Range { place, start, stop, step, body, .. } => {
            let mut kids: Vec<Tree> = Vec::new();
            push_tree(&mut kids, node1(owned("start"), hir_expr(names, start)));
            push_tree(&mut kids, node1(owned("stop"), hir_expr(names, stop)));
            match step {
                Some(by) => push_tree(&mut kids, node1(owned("step"), hir_expr(names, by))),
                None => {},
            }
            assert(decreases_to!(*statement => (*statement)->Range_body));
            push_tree(&mut kids, hir_block(names, "body", body));
            let ghost held = kids@;
            let tree = node(place_label("range ", *place), kids);
            assert(shapes_of(held) =~= hstmt_shape(*statement, names@)->Node_1);
            tree
        },
        HStmt::While { test, body } => {
            assert(decreases_to!(*statement => (*statement)->While_body));
            node2(owned("while"), node1(owned("test"), hir_expr(names, test)), hir_block(names, "body", body))
        },
        HStmt::Break => leaf(owned("break")),
        HStmt::Continue => leaf(owned("continue")),
        HStmt::Return { value, .. } => node1(owned("return"), hir_expr(names, value)),
    }
}

} // verus!
verus! {

/// Every module id in the load order names a module, and every symbol of
/// the program is one of its names.
pub open spec fn program_named(program: Program) -> bool {
    let names = program.names@;
    &&& forall|k: int| 0 <= k < program.order@.len() ==> (#[trigger] program.order@[k] as int) < program.modules@.len()
    &&& forall|m: int| 0 <= m < program.modules@.len() ==> {
        &&& hblock_named((#[trigger] program.modules@[m]).init@, names)
        &&& forall|j: int| 0 <= j < program.modules@[m].nouns@.len() ==> (#[trigger] program.modules@[m].nouns@[j].0 as int) < names.len()
    }
    &&& forall|f: int| 0 <= f < program.functions@.len() ==> hblock_named((#[trigger] program.functions@[f]).body@, names)
}

/// Texts separated by single spaces.
pub open spec fn words_text(words: Seq<Seq<char>>) -> Seq<char>
    decreases words.len(),
{
    if words.len() == 0 {
        seq![]
    } else if words.len() == 1 {
        words[0]
    } else {
        words_text(words.drop_last()) + " "@ + words.last()
    }
}

/// Statements shown one level in.
pub open spec fn stmts_text(body: Seq<HStmt>, names: Seq<Seq<char>>) -> Seq<char>
    decreases body.len(),
{
    if body.len() == 0 {
        seq![]
    } else {
        stmts_text(body.drop_last(), names) + rendered(hstmt_shape(body.last(), names), "  "@)
    }
}

/// Each noun of a module as `field=#function`.
pub open spec fn noun_texts(nouns: Seq<(Symbol, FuncId)>, names: Seq<Seq<char>>) -> Seq<Seq<char>> {
    Seq::new(nouns.len(), |j: int| names[nouns[j].0 as int] + "=#"@ + decimal(nouns[j].1 as nat))
}

/// A module: its header, its nouns in text order when it has any, and what
/// it runs when loaded.
pub open spec fn module_text(program: Program, id: ModuleId) -> Seq<char> {
    let module = program.modules@[id as int];
    let names = program.names@;
    "module "@ + decimal(id as nat) + " "@ + module.name@ + "\n"@ + if module.nouns@.len() == 0 {
        seq![]
    } else {
        "  nouns "@ + words_text(crate::order::sorted_texts(noun_texts(module.nouns@, names))) + "\n"@
    } + stmts_text(module.init@, names)
}

pub open spec fn modules_text(program: Program, order: Seq<ModuleId>) -> Seq<char>
    decreases order.len(),
{
    if order.len() == 0 {
        seq![]
    } else {
        modules_text(program, order.drop_last()) + module_text(program, order.last())
    }
}

/// A function's header line, then its body one level in.
pub open spec fn function_line(function: crate::hir::Function, index: int, names: Seq<Seq<char>>) -> Seq<char> {
    "fn #"@ + decimal(index as nat) + " "@ + function.name@ + " "@ + match function.kind {
        Kind::Verb => "verb"@,
        Kind::Noun => "noun"@,
    } + " module="@ + decimal(function.module as nat) + " params=["@
        + words_text(Seq::new(function.params@.len(), |j: int| decimal(function.params@[j] as nat)))
        + "] locals="@ + decimal(function.locals as nat) + "\n"@ + stmts_text(function.body@, names)
}

pub open spec fn function_text(program: Program, index: int) -> Seq<char> {
    function_line(program.functions@[index], index, program.names@)
}

pub open spec fn functions_text(program: Program, count: int) -> Seq<char>
    decreases count,
{
    if count <= 0 {
        seq![]
    } else {
        functions_text(program, count - 1) + function_text(program, count - 1)
    }
}

/// The dump of a lowered program: the global count, each module in load
/// order, then each function with its number.
pub open spec fn hir_text(program: Program) -> Seq<char> {
    "globals "@ + decimal(program.globals as nat) + "\n"@ + modules_text(program, program.order@)
        + functions_text(program, program.functions@.len() as int)
}

fn push_words(into: &mut String, words: &Vec<String>)
    ensures
        final(into)@ == old(into)@ + words_text(crate::words::string_view(words@)),
{
    let ghost start = into@;
    let ghost all = crate::words::string_view(words@);
    let mut at: usize = 0;
    assert(start + words_text(all.take(0)) =~= start);
    while at < words.len()
        invariant
            at <= words@.len(),
            all == crate::words::string_view(words@),
            into@ == start + words_text(all.take(at as int)),
        decreases words@.len() - at,
    {
        assert(all.take(at + 1).drop_last() =~= all.take(at as int));
        assert(all.take(at + 1).last() == words@[at as int]@);
        if at > 0 {
            push_str(into, " ");
        }
        push_str(into, words[at].as_str());
        at += 1;
    }
    assert(all.take(words@.len() as int) =~= all);
}

fn push_stmts(into: &mut String, names: &Interner, body: &Vec<HStmt>)
    requires
        hblock_named(body@, names@),
    ensures
        final(into)@ == old(into)@ + stmts_text(body@, names@),
{
    let ghost start = into@;
    let pad = owned("  ");
    let mut at: usize = 0;
    assert(start + stmts_text(body@.take(0), names@) =~= start);
    while at < body.len()
        invariant
            at <= body@.len(),
            pad@ == "  "@,
            hblock_named(body@, names@),
            into@ == start + stmts_text(body@.take(at as int), names@),
        decreases body@.len() - at,
    {
        proof {
            lemma_hblock_at(body@, names@, at as int);
        }
        assert(body@.take(at + 1).drop_last() =~= body@.take(at as int));
        assert(body@.take(at + 1).last() == body@[at as int]);
        let tree = hir_stmt(names, &body[at]);
        write(&tree, &pad, into);
        at += 1;
    }
    assert(body@.take(body@.len() as int) =~= body@);
}

#[verifier::rlimit(30)]
fn push_module(into: &mut String, program: &Program, id: ModuleId)
    requires
        program_named(*program),
        (id as int) < program.modules@.len(),
    ensures
        final(into)@ == old(into)@ + module_text(*program, id),
{
    let module = &program.modules[id as usize];
    let ghost names = program.names@;
    push_str(into, "module ");
    crate::chars::push_decimal(into, id as u64);
    push_str(into, " ");
    push_str(into, module.name.as_str());
    push_str(into, "\n");
    let ghost before_nouns = into@;
    if module.nouns.len() > 0 {
        let mut texts: Vec<String> = Vec::new();
        let mut at: usize = 0;
        while at < module.nouns.len()
            invariant
                at <= module.nouns@.len(),
                module == &program.modules@[id as int],
                names == program.names@,
                program_named(*program),
                (id as int) < program.modules@.len(),
                crate::words::string_view(texts@) == noun_texts(module.nouns@, names).take(at as int),
            decreases module.nouns@.len() - at,
        {
            assert((module.nouns@[at as int].0 as int) < names.len());
            let mut text = owned(program.names.name(module.nouns[at].0));
            push_str(&mut text, "=#");
            crate::chars::push_decimal(&mut text, module.nouns[at].1 as u64);
            let ghost before = crate::words::string_view(texts@);
            texts.push(text);
            assert(crate::words::string_view(texts@) =~= before.push(text@));
            assert(noun_texts(module.nouns@, names).take(at + 1) =~= noun_texts(module.nouns@, names).take(at as int).push(text@));
            at += 1;
        }
        assert(noun_texts(module.nouns@, names).take(module.nouns@.len() as int) =~= noun_texts(module.nouns@, names));
        let sorted = crate::order::sort_texts(&texts);
        push_str(into, "  nouns ");
        push_words(into, &sorted);
        push_str(into, "\n");
    }
    let ghost after_nouns = into@;
    assert(hblock_named(module.init@, names));
    push_stmts(into, &program.names, &module.init);
}

fn params_words(params: &Vec<LocalId>) -> (shown: Vec<String>)
    ensures
        crate::words::string_view(shown@) == Seq::new(params@.len(), |j: int| decimal(params@[j] as nat)),
{
    let ghost all = Seq::new(params@.len(), |j: int| decimal(params@[j] as nat));
    let mut shown: Vec<String> = Vec::new();
    let mut k: usize = 0;
    while k < params.len()
        invariant
            k <= params@.len(),
            all == Seq::new(params@.len(), |j: int| decimal(params@[j] as nat)),
            crate::words::string_view(shown@) == all.take(k as int),
        decreases params@.len() - k,
    {
        let mut one = String::new();
        crate::chars::push_decimal(&mut one, params[k] as u64);
        let ghost before = crate::words::string_view(shown@);
        shown.push(one);
        assert(crate::words::string_view(shown@) =~= before.push(one@));
        assert(all.take(k + 1) =~= all.take(k as int).push(one@));
        k += 1;
    }
    assert(all.take(params@.len() as int) =~= all);
    shown
}

fn push_function(into: &mut String, names: &Interner, function: &crate::hir::Function, index: usize)
    requires
        hblock_named(function.body@, names@),
    ensures
        final(into)@ == old(into)@ + function_line(*function, index as int, names@),
{
    push_str(into, "fn #");
    crate::chars::push_decimal(into, index as u64);
    push_str(into, " ");
    push_str(into, function.name.as_str());
    push_str(into, " ");
    match function.kind {
        Kind::Verb => push_str(into, "verb"),
        Kind::Noun => push_str(into, "noun"),
    }
    push_str(into, " module=");
    crate::chars::push_decimal(into, function.module as u64);
    push_str(into, " params=[");
    let shown = params_words(&function.params);
    push_words(into, &shown);
    push_str(into, "] locals=");
    crate::chars::push_decimal(into, function.locals as u64);
    push_str(into, "\n");
    push_stmts(into, names, &function.body);
}

/// The dump of a lowered program (see `hir_text`).
pub fn hir(program: &Program) -> (out: String)
    requires
        program_named(*program),
    ensures
        out@ == hir_text(*program),
{
    let mut out = owned("globals ");
    crate::chars::push_decimal(&mut out, program.globals as u64);
    push_str(&mut out, "\n");
    let ghost head = out@;
    let mut at: usize = 0;
    assert(head + modules_text(*program, program.order@.take(0)) =~= head);
    while at < program.order.len()
        invariant
            at <= program.order@.len(),
            program_named(*program),
            out@ == head + modules_text(*program, program.order@.take(at as int)),
        decreases program.order@.len() - at,
    {
        let id = program.order[at];
        assert((program.order@[at as int] as int) < program.modules@.len());
        push_module(&mut out, program, id);
        assert(program.order@.take(at + 1).drop_last() =~= program.order@.take(at as int));
        at += 1;
    }
    assert(program.order@.take(program.order@.len() as int) =~= program.order@);
    let ghost middle = out@;
    let mut index: usize = 0;
    while index < program.functions.len()
        invariant
            index <= program.functions@.len(),
            program_named(*program),
            out@ == middle + functions_text(*program, index as int),
        decreases program.functions@.len() - index,
    {
        assert(hblock_named(program.functions@[index as int].body@, program.names@));
        push_function(&mut out, &program.names, &program.functions[index], index);
        index += 1;
    }
    out
}

} // verus!
verus! {

/// The dump of two runs of statements is the dump of the first followed
/// by that of the second.
pub proof fn law_dump_concatenates(first: Seq<Stmt>, second: Seq<Stmt>)
    ensures
        ast_text(first + second) == ast_text(first) + ast_text(second),
    decreases second.len(),
{
    if second.len() == 0 {
        assert(first + second =~= first);
        assert(ast_text(first) + ast_text(second) =~= ast_text(first));
    } else {
        law_dump_concatenates(first, second.drop_last());
        assert((first + second).drop_last() =~= first + second.drop_last());
        assert((first + second).last() == second.last());
        assert(ast_text(first + second) =~= ast_text(first) + ast_text(second));
    }
}

} // verus!
verus! {

/// A token as the token dump shows it, on a line of its own. A real
/// number shows the text it holds.
pub open spec fn token_line(tok: crate::lex::TokModel) -> Seq<char> {
    match tok {
        crate::lex::TokModel::Name(name) => "name "@ + name,
        crate::lex::TokModel::Verb(name, pos, ending) => "verb "@ + name + " "@ + crate::hangul::pos_name(pos) + " "@
            + crate::hangul::ending_name(ending),
        crate::lex::TokModel::Copula(ending) => "copula "@ + crate::hangul::ending_name(ending),
        crate::lex::TokModel::Particle(role, canon) => "particle "@ + canon + " "@ + role,
        crate::lex::TokModel::Keyword(word) => "keyword "@ + word,
        crate::lex::TokModel::Number(crate::lex::NumModel::Int(value)) => "number "@ + crate::chars::signed_decimal(value),
        crate::lex::TokModel::Number(crate::lex::NumModel::Float(text)) => "number "@ + text,
        crate::lex::TokModel::Str(text) => "string "@ + escaped(text),
        crate::lex::TokModel::Template(parts) => "template "@ + template_text(parts),
        crate::lex::TokModel::Symbol(ch) => "symbol "@ + seq![ch],
        crate::lex::TokModel::Indent(depth) => "indent "@ + crate::chars::decimal(depth),
        crate::lex::TokModel::Dedent(depth) => "dedent "@ + crate::chars::decimal(depth),
        crate::lex::TokModel::Newline => "newline"@,
        crate::lex::TokModel::Eof => "eof"@,
    }
}

/// The lines of tokens, each ended by a newline.
pub open spec fn token_lines(toks: Seq<crate::lex::TokModel>) -> Seq<char>
    decreases toks.len(),
{
    if toks.len() == 0 {
        seq![]
    } else {
        token_lines(toks.drop_last()) + token_line(toks.last()) + "\n"@
    }
}

/// The token dump: a line for each token, then a newline; a lone newline
/// when there is no token.
pub open spec fn tokens_text(toks: Seq<crate::lex::TokModel>) -> Seq<char> {
    if toks.len() == 0 {
        "\n"@
    } else {
        token_lines(toks)
    }
}

/// One token of the dump.
pub fn line(tok: &crate::lex::Tok) -> (out: String)
    ensures
        out@ == token_line(tok@),
{
    let mut out = String::new();
    match tok {
        crate::lex::Tok::Name(name) => {
            push_str(&mut out, "name ");
            push_str(&mut out, name.as_str());
        },
        crate::lex::Tok::Verb { name, pos, ending } => {
            push_str(&mut out, "verb ");
            push_str(&mut out, name.as_str());
            push_str(&mut out, " ");
            push_str(&mut out, pos.as_str());
            push_str(&mut out, " ");
            push_str(&mut out, ending.as_str());
        },
        crate::lex::Tok::Copula { ending } => {
            push_str(&mut out, "copula ");
            push_str(&mut out, ending.as_str());
        },
        crate::lex::Tok::Particle { role, canon } => {
            push_str(&mut out, "particle ");
            push_str(&mut out, canon);
            push_str(&mut out, " ");
            push_str(&mut out, role);
        },
        crate::lex::Tok::Keyword(word) => {
            push_str(&mut out, "keyword ");
            push_str(&mut out, word.as_str());
        },
        crate::lex::Tok::Number(crate::lex::Num::Int(value)) => {
            push_str(&mut out, "number ");
            crate::chars::push_signed(&mut out, *value);
        },
        crate::lex::Tok::Number(crate::lex::Num::Float(text)) => {
            push_str(&mut out, "number ");
            push_str(&mut out, text.as_str());
        },
        crate::lex::Tok::Str(text) => {
            push_str(&mut out, "string ");
            let shown = escape(text.as_str());
            push_str(&mut out, shown.as_str());
        },
        crate::lex::Tok::Template(parts) => {
            push_str(&mut out, "template ");
            let shown = template(parts);
            push_str(&mut out, shown.as_str());
        },
        crate::lex::Tok::Symbol(ch) => {
            push_str(&mut out, "symbol ");
            crate::chars::push_char(&mut out, *ch);
        },
        crate::lex::Tok::Indent(depth) => {
            push_str(&mut out, "indent ");
            crate::chars::push_decimal(&mut out, *depth as u64);
        },
        crate::lex::Tok::Dedent(depth) => {
            push_str(&mut out, "dedent ");
            crate::chars::push_decimal(&mut out, *depth as u64);
        },
        crate::lex::Tok::Newline => push_str(&mut out, "newline"),
        crate::lex::Tok::Eof => push_str(&mut out, "eof"),
    }
    out
}

/// The token dump of a stream.
pub fn tokens(stream: &Vec<crate::lex::Token>) -> (out: String)
    ensures
        out@ == tokens_text(crate::prescan::kinds_view(stream@)),
{
    let ghost toks = crate::prescan::kinds_view(stream@);
    let mut out = String::new();
    let mut at: usize = 0;
    assert(toks.take(0) =~= Seq::<crate::lex::TokModel>::empty());
    while at < stream.len()
        invariant
            at <= stream@.len(),
            toks == crate::prescan::kinds_view(stream@),
            out@ == token_lines(toks.take(at as int)),
        decreases stream@.len() - at,
    {
        assert(toks.take(at + 1).drop_last() =~= toks.take(at as int));
        let shown = line(&stream[at].tok);
        push_str(&mut out, shown.as_str());
        push_str(&mut out, "\n");
        at += 1;
    }
    assert(toks.take(stream@.len() as int) =~= toks);
    if stream.len() == 0 {
        push_str(&mut out, "\n");
    }
    out
}

} // verus!
