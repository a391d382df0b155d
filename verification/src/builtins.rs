//! The operations the built-in verbs lower to, and the ways to call them.

use vstd::prelude::*;

use vstd::multiset::Multiset;

use crate::chars::same_text;
use crate::sig::{fits, markers_view, Marker, MarkerModel};

verus! {

#[derive(Clone, Copy, Debug, PartialEq, Eq, Structural)]
pub enum Builtin {
    Print,
    Stop,
    Convert,
    Join,
    JoinWith,
    Add,
    AddCopy,
    Sub,
    Mul,
    Div,
    Rem,
    Greater,
    Less,
    Equal,
    Truthy,
    StartsWith,
    Contains,
    EndsWith,
    Trim,
    Split,
    Read,
    ReadLine,
    Open,
    Write,
    Nothing,
}

/// A built-in verb: its name, the markers of one way to call it, and the
/// operation that way lowers to.
pub struct Def {
    pub verb: &'static str,
    pub params: Vec<Marker>,
    pub op: Builtin,
}

pub type DefModel = (Seq<char>, Seq<MarkerModel>, Builtin);

impl View for Def {
    type V = DefModel;

    open spec fn view(&self) -> DefModel {
        (self.verb@, markers_view(self.params@), self.op)
    }
}

pub open spec fn defs_view(found: Seq<Def>) -> Seq<DefModel> {
    Seq::new(found.len(), |i: int| found[i]@)
}

pub open spec fn case(particle: &'static str) -> MarkerModel {
    MarkerModel::Case(particle@)
}

/// The built-in verbs, in the order they are looked up.
pub open spec fn def_table() -> Seq<DefModel> {
    seq![
        ("출력하다"@, seq![case("를")], Builtin::Print),
        ("종료하다"@, seq![case("로")], Builtin::Stop),
        ("바꾸다"@, seq![case("를"), case("로")], Builtin::Convert),
        ("잇다"@, seq![case("를")], Builtin::Join),
        ("잇다"@, seq![case("를"), case("로")], Builtin::JoinWith),
        ("더하다"@, seq![case("에"), case("를")], Builtin::Add),
        ("빼다"@, seq![case("에서"), case("를")], Builtin::Sub),
        ("곱하다"@, seq![case("에"), case("를")], Builtin::Mul),
        ("나누다"@, seq![case("를"), case("로")], Builtin::Div),
        ("나누다·나머지"@, seq![case("를"), case("로")], Builtin::Rem),
        ("크다"@, seq![case("가"), case("보다")], Builtin::Greater),
        ("작다"@, seq![case("가"), case("보다")], Builtin::Less),
        ("같다"@, seq![case("가"), case("와")], Builtin::Equal),
        ("시작하다"@, seq![case("가"), case("로")], Builtin::StartsWith),
        ("담다"@, seq![case("가"), case("를")], Builtin::Contains),
        ("끝나다"@, seq![case("가"), case("로")], Builtin::EndsWith),
        ("다듬다"@, seq![case("를")], Builtin::Trim),
        ("자르다"@, seq![case("를"), case("로")], Builtin::Split),
        ("읽다"@, seq![case("를")], Builtin::Read),
        ("입력받다"@, Seq::<MarkerModel>::empty(), Builtin::ReadLine),
        ("열다"@, seq![case("를")], Builtin::Open),
        ("쓰다"@, seq![case("에"), case("를")], Builtin::Write),
        ("가져오다"@, seq![case("를")], Builtin::Nothing),
        ("이다"@, seq![case("가"), MarkerModel::Bare], Builtin::Equal),
        ("이다"@, seq![case("가")], Builtin::Truthy),
        ("이다"@, seq![MarkerModel::Bare], Builtin::Truthy),
    ]
}

fn one(verb: &'static str, particle: &'static str, op: Builtin) -> (made: Def)
    ensures
        made@ == (verb@, seq![case(particle)], op),
{
    let made = Def { verb, params: vec![Marker::Case(particle)], op };
    assert(markers_view(made.params@) =~= seq![case(particle)]);
    made
}

fn two(verb: &'static str, first: &'static str, second: &'static str, op: Builtin) -> (made: Def)
    ensures
        made@ == (verb@, seq![case(first), case(second)], op),
{
    let made = Def { verb, params: vec![Marker::Case(first), Marker::Case(second)], op };
    assert(markers_view(made.params@) =~= seq![case(first), case(second)]);
    made
}

fn with(verb: &'static str, params: Vec<Marker>, op: Builtin) -> (made: Def)
    ensures
        made@ == (verb@, markers_view(params@), op),
{
    Def { verb, params, op }
}

/// The built-in verbs (see `def_table`).
pub fn table() -> (found: Vec<Def>)
    ensures
        defs_view(found@) =~~= def_table(),
{
    let bare_last = vec![Marker::Case("가"), Marker::Bare];
    let bare = vec![Marker::Bare];
    assert(markers_view(bare_last@) =~= seq![case("가"), MarkerModel::Bare]);
    assert(markers_view(bare@) =~= seq![MarkerModel::Bare]);
    let none: Vec<Marker> = Vec::new();
    assert(markers_view(none@) =~= Seq::<MarkerModel>::empty());
    let found = vec![
        one("출력하다", "를", Builtin::Print),
        one("종료하다", "로", Builtin::Stop),
        two("바꾸다", "를", "로", Builtin::Convert),
        one("잇다", "를", Builtin::Join),
        two("잇다", "를", "로", Builtin::JoinWith),
        two("더하다", "에", "를", Builtin::Add),
        two("빼다", "에서", "를", Builtin::Sub),
        two("곱하다", "에", "를", Builtin::Mul),
        two("나누다", "를", "로", Builtin::Div),
        two("나누다·나머지", "를", "로", Builtin::Rem),
        two("크다", "가", "보다", Builtin::Greater),
        two("작다", "가", "보다", Builtin::Less),
        two("같다", "가", "와", Builtin::Equal),
        two("시작하다", "가", "로", Builtin::StartsWith),
        two("담다", "가", "를", Builtin::Contains),
        two("끝나다", "가", "로", Builtin::EndsWith),
        one("다듬다", "를", Builtin::Trim),
        two("자르다", "를", "로", Builtin::Split),
        one("읽다", "를", Builtin::Read),
        with("입력받다", none, Builtin::ReadLine),
        one("열다", "를", Builtin::Open),
        two("쓰다", "에", "를", Builtin::Write),
        one("가져오다", "를", Builtin::Nothing),
        with("이다", bare_last, Builtin::Equal),
        one("이다", "가", Builtin::Truthy),
        with("이다", bare, Builtin::Truthy),
    ];
    assert(defs_view(found@) =~~= def_table());
    found
}

/// A call with markers `used` matches a definition: the same verb, and the
/// same markers in any order.
pub open spec fn matches_def(def: DefModel, verb: Seq<char>, used: Seq<MarkerModel>) -> bool {
    &&& def.0 == verb
    &&& used.len() <= def.1.len() <= crate::sig::MAX_SLOTS
    &&& used.to_multiset().subset_of(def.1.to_multiset())
    &&& used.len() == def.1.len()
}

/// The first definition that a call of `verb` with `used` matches.
pub open spec fn first_match(defs: Seq<DefModel>, verb: Seq<char>, used: Seq<MarkerModel>) -> Option<DefModel>
    decreases defs.len(),
{
    if defs.len() == 0 {
        None
    } else if matches_def(defs[0], verb, used) {
        Some(defs[0])
    } else {
        first_match(defs.drop_first(), verb, used)
    }
}

/// The built-in definition that a call of `verb` with the markers `used`
/// lowers to.
pub fn find(verb: &str, used: &[Marker]) -> (found: Option<Def>)
    ensures
        match found {
            Some(def) => first_match(def_table(), verb@, markers_view(used@)) == Some(def@),
            None => first_match(def_table(), verb@, markers_view(used@)) is None,
        },
{
    let mut defs = table();
    let ghost all = defs_view(defs@);
    let mut at: usize = 0;
    assert(all.skip(0) =~= all);
    while at < defs.len()
        invariant
            at <= defs@.len(),
            all =~~= def_table(),
            all == defs_view(defs@),
            first_match(all, verb@, markers_view(used@)) == first_match(all.skip(at as int), verb@, markers_view(used@)),
        decreases defs@.len() - at,
    {
        assert(all.skip(at as int)[0] == defs@[at as int]@);
        assert(all.skip(at as int).drop_first() =~= all.skip(at + 1));
        let def = &defs[at];
        if same_text(def.verb, verb) && fits(used, def.params.as_slice()) && used.len() == def.params.len() {
            let chosen = defs.remove(at);
            return Some(chosen);
        }
        at += 1;
    }
    assert(all =~= def_table());
    None
}

/// The ways to call the built-in verb `verb`: the markers of each of its
/// definitions, in table order.
pub open spec fn ways_of(defs: Seq<DefModel>, verb: Seq<char>) -> Seq<Seq<MarkerModel>>
    decreases defs.len(),
{
    if defs.len() == 0 {
        seq![]
    } else {
        let rest = ways_of(defs.drop_last(), verb);
        if defs.last().0 == verb {
            rest.push(defs.last().1)
        } else {
            rest
        }
    }
}

pub fn ways(verb: &str) -> (found: Vec<Vec<Marker>>)
    ensures
        crate::sig::ways_view(found@) =~~= ways_of(def_table(), verb@),
{
    let defs = table();
    let ghost all = defs_view(defs@);
    let mut out: Vec<Vec<Marker>> = Vec::new();
    let mut at: usize = 0;
    assert(crate::sig::ways_view(out@) =~= Seq::<Seq<MarkerModel>>::empty());
    while at < defs.len()
        invariant
            at <= defs@.len(),
            all =~~= def_table(),
            all == defs_view(defs@),
            crate::sig::ways_view(out@) =~~= ways_of(all.take(at as int), verb@),
        decreases defs@.len() - at,
    {
        assert(all.take(at + 1).drop_last() =~= all.take(at as int));
        assert(all.take(at + 1).last() == defs@[at as int]@);
        let def = &defs[at];
        if same_text(def.verb, verb) {
            let ghost before = crate::sig::ways_view(out@);
            let mut copied: Vec<Marker> = Vec::new();
            let mut k: usize = 0;
            while k < def.params.len()
                invariant
                    k <= def.params@.len(),
                    copied@ == def.params@.take(k as int),
                decreases def.params@.len() - k,
            {
                copied.push(def.params[k]);
                assert(def.params@.take(k + 1) =~= def.params@.take(k as int).push(def.params@[k as int]));
                k += 1;
            }
            assert(def.params@.take(def.params@.len() as int) =~= def.params@);
            out.push(copied);
            assert(crate::sig::ways_view(out@) =~~= before.push(markers_view(def.params@)));
        }
        at += 1;
    }
    assert(all.take(defs@.len() as int) =~= all);
    out
}

} // verus!
verus! {

proof fn lemma_subset_same_size<A>(a: Seq<A>, b: Seq<A>)
    requires
        a.to_multiset().subset_of(b.to_multiset()),
        a.len() == b.len(),
    ensures
        a.to_multiset() == b.to_multiset(),
    decreases a.len(),
{
    broadcast use vstd::seq_lib::group_to_multiset_ensures;
    broadcast use vstd::multiset::group_multiset_axioms;

    if a.len() == 0 {
        assert(a.to_multiset() =~= Multiset::<A>::empty());
        assert(b.to_multiset() =~= Multiset::<A>::empty());
    } else {
        let x = a.last();
        let rest = a.drop_last();
        assert(rest.push(x) == a);
        assert(a.to_multiset() == rest.to_multiset().insert(x));
        assert(a.to_multiset().count(x) > 0);
        assert(b.to_multiset().count(x) > 0);
        assert(b.contains(x));
        let i = choose|i: int| 0 <= i < b.len() && b[i] == x;
        let others = b.remove(i);
        vstd::seq_lib::to_multiset_remove(b, i);
        assert forall|v: A| rest.to_multiset().count(v) <= others.to_multiset().count(v) by {
            assert(a.to_multiset().count(v) <= b.to_multiset().count(v));
        }
        lemma_subset_same_size(rest, others);
        assert(a.to_multiset() =~= b.to_multiset());
    }
}

/// A built-in is found only for a call whose markers are its parameters,
/// in some order: the same markers, each as often.
pub proof fn law_found_is_permutation(verb: Seq<char>, used: Seq<MarkerModel>)
    ensures
        first_match(def_table(), verb, used) matches Some(def) ==> def.0 == verb && used.to_multiset()
            == def.1.to_multiset(),
{
    lemma_first_match(def_table(), verb, used);
    if let Some(def) = first_match(def_table(), verb, used) {
        lemma_subset_same_size(used, def.1);
    }
}

proof fn lemma_first_match(defs: Seq<DefModel>, verb: Seq<char>, used: Seq<MarkerModel>)
    ensures
        first_match(defs, verb, used) matches Some(def) ==> matches_def(def, verb, used),
    decreases defs.len(),
{
    if defs.len() > 0 && !matches_def(defs[0], verb, used) {
        lemma_first_match(defs.drop_first(), verb, used);
    }
}

} // verus!
verus! {

/// No two built-ins share a verb and the same markers (in any order), so a
/// call matches at most one of them; and none takes more than two markers.
#[verifier::rlimit(60)]
pub proof fn law_builtins_unambiguous()
    ensures
        forall|i: int, j: int|
            0 <= i < j < def_table().len() ==> !(#[trigger] def_table()[i].0 == #[trigger] def_table()[j].0
                && def_table()[i].1.to_multiset() == def_table()[j].1.to_multiset()),
        forall|i: int| 0 <= i < def_table().len() ==> (#[trigger] def_table()[i]).1.len() <= 2,
{
    broadcast use vstd::seq_lib::group_to_multiset_ensures;
    reveal_strlit("출력하다");
    reveal_strlit("종료하다");
    reveal_strlit("바꾸다");
    reveal_strlit("잇다");
    reveal_strlit("더하다");
    reveal_strlit("빼다");
    reveal_strlit("곱하다");
    reveal_strlit("나누다");
    reveal_strlit("나누다·나머지");
    reveal_strlit("크다");
    reveal_strlit("작다");
    reveal_strlit("같다");
    reveal_strlit("시작하다");
    reveal_strlit("담다");
    reveal_strlit("끝나다");
    reveal_strlit("다듬다");
    reveal_strlit("자르다");
    reveal_strlit("읽다");
    reveal_strlit("입력받다");
    reveal_strlit("열다");
    reveal_strlit("쓰다");
    reveal_strlit("가져오다");
    reveal_strlit("이다");
    reveal_strlit("가");
    let t = def_table();
    let firsts = seq!['출', '종', '바', '잇', '잇', '더', '빼', '곱', '나', '나', '크', '작', '같', '시', '담', '끝', '다', '자', '읽', '입', '열', '쓰', '가', '이', '이', '이'];
    assert forall|i: int| 0 <= i < t.len() implies #[trigger] t[i].0.len() > 0 && t[i].0[0] == firsts[i] by {}
    assert(t[8].0.len() != t[9].0.len());
    assert(t[24].1.to_multiset().contains(case("가")));
    assert(!t[25].1.to_multiset().contains(case("가")));
    assert forall|i: int, j: int|
        0 <= i < j < t.len() implies !(#[trigger] t[i].0 == #[trigger] t[j].0
            && t[i].1.to_multiset() == t[j].1.to_multiset()) by {
        if t[i].0 == t[j].0 {
            assert(t[i].0[0] == t[j].0[0]);
            if t[i].1.to_multiset() == t[j].1.to_multiset() {
                assert(t[i].1.to_multiset().len() == t[j].1.to_multiset().len());
            }
        }
    }
}

} // verus!
