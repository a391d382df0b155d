//! Verb signatures: which particles mark a verb's arguments. A call fits a
//! signature when the particles it uses are among the signature's, each
//! used at most as often as the signature has it.

use vstd::prelude::*;
use vstd::multiset::Multiset;
use vstd::relations::{sorted_by, total_ordering};

use crate::chars::{owned, push_str, same_text};
use crate::order::text_le;

verus! {

/// How an argument is marked: by a particle, by nothing, or as a module.
#[derive(Clone, Copy, Debug, PartialEq, Eq, Hash, PartialOrd, Ord)]
pub enum Marker {
    Case(&'static str),
    Bare,
    Module,
}

/// What a marker stands for.
pub enum MarkerModel {
    Case(Seq<char>),
    Bare,
    Module,
}

impl View for Marker {
    type V = MarkerModel;

    open spec fn view(&self) -> MarkerModel {
        match self {
            Marker::Case(particle) => MarkerModel::Case(particle@),
            Marker::Bare => MarkerModel::Bare,
            Marker::Module => MarkerModel::Module,
        }
    }
}

pub open spec fn markers_view(found: Seq<Marker>) -> Seq<MarkerModel> {
    Seq::new(found.len(), |i: int| found[i]@)
}

impl Marker {
    /// Whether the marker marks an argument: particles that only give a
    /// statement its shape do not.
    pub fn is_argument(self) -> (found: bool)
        ensures
            found == match self@ {
                MarkerModel::Case(particle) => !crate::words::structural_table().contains(particle),
                MarkerModel::Bare => true,
                MarkerModel::Module => false,
            },
    {
        match self {
            Marker::Case(particle) => !crate::words::is_structural(particle),
            Marker::Bare => true,
            Marker::Module => false,
        }
    }

    /// How the marker is shown.
    pub fn label(self) -> (found: &'static str)
        ensures
            found@ == marker_label(self@),
    {
        match self {
            Marker::Case(particle) => particle,
            Marker::Bare => "없음",
            Marker::Module => "모듈",
        }
    }
}

pub open spec fn marker_label(marker: MarkerModel) -> Seq<char> {
    match marker {
        MarkerModel::Case(particle) => particle,
        MarkerModel::Bare => "없음"@,
        MarkerModel::Module => "모듈"@,
    }
}

/// Whether two markers are the same.
pub fn same_marker(left: Marker, right: Marker) -> (found: bool)
    ensures
        found == (left@ == right@),
{
    match (left, right) {
        (Marker::Case(a), Marker::Case(b)) => same_text(a, b),
        (Marker::Bare, Marker::Bare) => true,
        (Marker::Module, Marker::Module) => true,
        _ => false,
    }
}

/// The order of markers: particles first, by their text, then no marker,
/// then module.
pub open spec fn marker_le(left: MarkerModel, right: MarkerModel) -> bool {
    match (left, right) {
        (MarkerModel::Case(a), MarkerModel::Case(b)) => text_le(a, b),
        (MarkerModel::Case(_), _) => true,
        (MarkerModel::Bare, MarkerModel::Case(_)) => false,
        (MarkerModel::Bare, _) => true,
        (MarkerModel::Module, MarkerModel::Module) => true,
        (MarkerModel::Module, _) => false,
    }
}

pub open spec fn marker_order() -> spec_fn(MarkerModel, MarkerModel) -> bool {
    |left: MarkerModel, right: MarkerModel| marker_le(left, right)
}

/// The marker order is a total order.
pub proof fn law_marker_order_total()
    ensures
        total_ordering(marker_order()),
{
    assert forall|a: MarkerModel| #[trigger] marker_order()(a, a) by {
        if let MarkerModel::Case(x) = a {
            crate::order::lemma_text_le_reflexive(x);
        }
    }
    assert forall|a: MarkerModel, b: MarkerModel|
        #[trigger] marker_order()(a, b) && #[trigger] marker_order()(b, a) implies a == b by {
        if let (MarkerModel::Case(x), MarkerModel::Case(y)) = (a, b) {
            crate::order::lemma_text_le_antisymmetric(x, y);
        }
    }
    assert forall|a: MarkerModel, b: MarkerModel, c: MarkerModel|
        #[trigger] marker_order()(a, b) && #[trigger] marker_order()(b, c) implies marker_order()(
        a,
        c,
    ) by {
        if let (MarkerModel::Case(x), MarkerModel::Case(y), MarkerModel::Case(z)) = (a, b, c) {
            crate::order::lemma_text_le_transitive(x, y, z);
        }
    }
    assert forall|a: MarkerModel, b: MarkerModel|
        #[trigger] marker_order()(a, b) || #[trigger] marker_order()(b, a) by {
        if let (MarkerModel::Case(x), MarkerModel::Case(y)) = (a, b) {
            crate::order::lemma_text_le_connected(x, y);
        }
    }
}

fn marker_le_exec(left: Marker, right: Marker) -> (found: bool)
    ensures
        found == marker_le(left@, right@),
{
    match (left, right) {
        (Marker::Case(a), Marker::Case(b)) => crate::order::text_le_exec(a, b),
        (Marker::Case(_), _) => true,
        (Marker::Bare, Marker::Case(_)) => false,
        (Marker::Bare, _) => true,
        (Marker::Module, Marker::Module) => true,
        (Marker::Module, _) => false,
    }
}

/// The markers in order: the one ordering of them by the marker order.
pub open spec fn sorted_markers(found: Seq<MarkerModel>) -> Seq<MarkerModel> {
    choose|s: Seq<MarkerModel>| sorted_by(s, marker_order()) && s.to_multiset() == found.to_multiset()
}

/// The markers of a signature in order, so that signatures that use the
/// same markers compare equal.
pub fn ordered(markers: &[Marker]) -> (found: Vec<Marker>)
    ensures
        markers_view(found@) == sorted_markers(markers_view(markers@)),
        sorted_by(markers_view(found@), marker_order()),
        markers_view(found@).to_multiset() == markers_view(markers@).to_multiset(),
{
    broadcast use vstd::seq_lib::group_to_multiset_ensures;

    proof {
        law_marker_order_total();
    }
    let mut sorted: Vec<Marker> = Vec::new();
    let mut i: usize = 0;
    assert(markers_view(sorted@) =~= Seq::<MarkerModel>::empty());
    assert(markers_view(markers@).take(0) =~= Seq::<MarkerModel>::empty());
    while i < markers.len()
        invariant
            i <= markers@.len(),
            total_ordering(marker_order()),
            sorted_by(markers_view(sorted@), marker_order()),
            markers_view(sorted@).to_multiset() == markers_view(markers@).take(i as int).to_multiset(),
        decreases markers@.len() - i,
    {
        let item = markers[i];
        let ghost items = markers_view(sorted@);
        let mut p: usize = 0;
        while p < sorted.len() && marker_le_exec(sorted[p], item)
            invariant
                p <= sorted@.len(),
                items == markers_view(sorted@),
                forall|k: int| 0 <= k < p ==> marker_le(items[k], item@),
            decreases sorted@.len() - p,
        {
            p += 1;
        }
        sorted.insert(p, item);
        proof {
            let now = markers_view(sorted@);
            assert(now =~= items.insert(p as int, item@));
            assert forall|x: int, y: int| 0 <= x < y < now.len() implies marker_le(now[x], now[y]) by {
                if p < items.len() {
                    assert(!marker_order()(items[p as int], item@));
                    assert(marker_order()(items[p as int], item@) || marker_order()(item@, items[p as int]));
                }
                if y == p {
                    assert(marker_le(items[x], item@));
                } else if x == p {
                    assert(marker_order()(item@, items[p as int]));
                    assert(marker_order()(items[p as int], items[y - 1]));
                } else if x < p && y > p {
                    assert(marker_order()(items[x], items[y - 1]));
                } else if y < p {
                    assert(marker_order()(items[x], items[y]));
                } else {
                    assert(marker_order()(items[x - 1], items[y - 1]));
                }
            }
            vstd::seq_lib::to_multiset_insert(items, p as int, item@);
            assert(markers_view(markers@).take(i + 1) =~= markers_view(markers@).take(i as int).push(
                item@,
            ));
            vstd::seq_lib::to_multiset_build(markers_view(markers@).take(i as int), item@);
        }
        i += 1;
    }
    assert(markers_view(markers@).take(markers@.len() as int) =~= markers_view(markers@));
    proof {
        let s = markers_view(sorted@);
        let other = sorted_markers(markers_view(markers@));
        vstd::seq_lib::lemma_sorted_unique(s, other, marker_order());
    }
    sorted
}

/// Whether two runs of markers hold the same markers, in any order.
pub fn same(left: &[Marker], right: &[Marker]) -> (found: bool)
    ensures
        found == (markers_view(left@).to_multiset() == markers_view(right@).to_multiset()),
{
    broadcast use vstd::seq_lib::group_to_multiset_ensures;

    if left.len() != right.len() {
        assert(markers_view(left@).to_multiset().len() != markers_view(right@).to_multiset().len());
        return false;
    }
    let a = ordered(left);
    let b = ordered(right);
    proof {
        law_marker_order_total();
        assert(markers_view(a@).to_multiset().len() == markers_view(a@).len());
        assert(markers_view(b@).to_multiset().len() == markers_view(b@).len());
        assert(markers_view(left@).to_multiset().len() == markers_view(left@).len());
        assert(markers_view(right@).to_multiset().len() == markers_view(right@).len());
    }
    let mut at: usize = 0;
    while at < a.len()
        invariant
            at <= a@.len(),
            total_ordering(marker_order()),
            sorted_by(markers_view(a@), marker_order()),
            sorted_by(markers_view(b@), marker_order()),
            markers_view(a@).to_multiset() == markers_view(left@).to_multiset(),
            markers_view(b@).to_multiset() == markers_view(right@).to_multiset(),
            a@.len() == left@.len(),
            b@.len() == right@.len(),
            left@.len() == right@.len(),
            forall|j: int| 0 <= j < at ==> a@[j]@ == b@[j]@,
        decreases a@.len() - at,
    {
        if !same_marker(a[at], b[at]) {
            proof {
                assert(markers_view(a@)[at as int] != markers_view(b@)[at as int]);
                if markers_view(left@).to_multiset() == markers_view(right@).to_multiset() {
                    vstd::seq_lib::lemma_sorted_unique(markers_view(a@), markers_view(b@), marker_order());
                }
            }
            return false;
        }
        at += 1;
    }
    assert(markers_view(a@) =~= markers_view(b@));
    true
}

} // verus!
verus! {

/// The most markers a signature may have.
pub const MAX_SLOTS: usize = 8;

/// The markers of `signature` at the places marked taken.
pub open spec fn picked(signature: Seq<MarkerModel>, taken: Seq<bool>) -> Multiset<MarkerModel>
    decreases signature.len(),
{
    if signature.len() == 0 {
        Multiset::empty()
    } else {
        let rest = picked(signature.drop_last(), taken);
        if taken[signature.len() - 1] {
            rest.insert(signature.last())
        } else {
            rest
        }
    }
}

proof fn lemma_picked_bound(signature: Seq<MarkerModel>, taken: Seq<bool>, x: MarkerModel)
    ensures
        picked(signature, taken).count(x) <= signature.to_multiset().count(x),
        (forall|k: int| 0 <= k < signature.len() && signature[k] == x ==> taken[k]) ==> picked(
            signature,
            taken,
        ).count(x) == signature.to_multiset().count(x),
    decreases signature.len(),
{
    broadcast use vstd::seq_lib::group_to_multiset_ensures;
    broadcast use vstd::multiset::group_multiset_axioms;

    if signature.len() == 0 {
    } else {
        let init = signature.drop_last();
        lemma_picked_bound(init, taken, x);
        assert(init.push(signature.last()) == signature);
        if forall|k: int| 0 <= k < signature.len() && signature[k] == x ==> taken[k] {
            assert forall|k: int| 0 <= k < init.len() && init[k] == x implies taken[k] by {
                assert(signature[k] == init[k]);
            }
        }
    }
}

proof fn lemma_picked_take(signature: Seq<MarkerModel>, taken: Seq<bool>, k: int)
    requires
        0 <= k < signature.len(),
        signature.len() <= taken.len(),
        !taken[k],
    ensures
        picked(signature, taken.update(k, true)) =~= picked(signature, taken).insert(signature[k]),
    decreases signature.len(),
{
    broadcast use vstd::multiset::group_multiset_axioms;

    let init = signature.drop_last();
    let last = signature.len() - 1;
    if k < last {
        lemma_picked_take(init, taken, k);
        assert(init[k] == signature[k]);
    } else {
        lemma_picked_same(init, taken, taken.update(k, true));
    }
}

proof fn lemma_picked_prefix(signature: Seq<MarkerModel>, taken: Seq<bool>)
    requires
        signature.len() <= taken.len(),
    ensures
        picked(signature, taken) == picked(signature, taken.take(signature.len() as int)),
    decreases signature.len(),
{
    if signature.len() > 0 {
        lemma_picked_prefix(signature.drop_last(), taken);
        lemma_picked_prefix(signature.drop_last(), taken.take(signature.len() as int));
        assert(taken.take(signature.len() as int).take(signature.len() - 1) =~= taken.take(
            signature.len() - 1,
        ));
    }
}

proof fn lemma_picked_same(signature: Seq<MarkerModel>, a: Seq<bool>, b: Seq<bool>)
    requires
        signature.len() <= a.len(),
        signature.len() <= b.len(),
        forall|k: int| 0 <= k < signature.len() ==> a[k] == b[k],
    ensures
        picked(signature, a) == picked(signature, b),
    decreases signature.len(),
{
    if signature.len() > 0 {
        lemma_picked_same(signature.drop_last(), a, b);
    }
}

proof fn lemma_prefix_count(s: Seq<MarkerModel>, i: int, x: MarkerModel)
    requires
        0 <= i <= s.len(),
    ensures
        s.take(i).to_multiset().count(x) <= s.to_multiset().count(x),
    decreases s.len() - i,
{
    broadcast use vstd::seq_lib::group_to_multiset_ensures;
    broadcast use vstd::multiset::group_multiset_axioms;

    if i < s.len() {
        lemma_prefix_count(s, i + 1, x);
        assert(s.take(i + 1) =~= s.take(i).push(s[i]));
    } else {
        assert(s.take(i) =~= s);
    }
}

/// Whether a call that uses the markers `used` fits `signature`: it uses
/// no more markers than the signature has (which has at most
/// `MAX_SLOTS`), and each marker no more often.
pub fn fits(used: &[Marker], signature: &[Marker]) -> (found: bool)
    ensures
        found == (used@.len() <= signature@.len() && signature@.len() <= MAX_SLOTS && markers_view(
            used@,
        ).to_multiset().subset_of(markers_view(signature@).to_multiset())),
{
    broadcast use vstd::seq_lib::group_to_multiset_ensures;
    broadcast use vstd::multiset::group_multiset_axioms;

    if used.len() > signature.len() || signature.len() > MAX_SLOTS {
        return false;
    }
    let ghost sv = markers_view(signature@);
    let ghost uv = markers_view(used@);
    let mut taken: Vec<bool> = Vec::new();
    while taken.len() < signature.len()
        invariant
            taken@.len() <= signature@.len(),
            forall|k: int| 0 <= k < taken@.len() ==> !taken@[k],
        decreases signature@.len() - taken@.len(),
    {
        taken.push(false);
    }
    proof {
        assert(picked(sv, taken@) =~= Multiset::empty()) by {
            lemma_picked_none(sv, taken@);
        }
        assert(uv.take(0) =~= Seq::<MarkerModel>::empty());
    }
    let mut i: usize = 0;
    while i < used.len()
        invariant
            i <= used@.len(),
            taken@.len() == signature@.len(),
            sv == markers_view(signature@),
            uv == markers_view(used@),
            uv.take(i as int).to_multiset() == picked(sv, taken@),
        decreases used@.len() - i,
    {
        let marker = used[i];
        let mut k: usize = 0;
        let mut hit = false;
        while k < signature.len() && !hit
            invariant
                k <= signature@.len(),
                taken@.len() == signature@.len(),
                sv == markers_view(signature@),
                uv == markers_view(used@),
                i < used@.len(),
                marker == used@[i as int],
                !hit ==> uv.take(i as int).to_multiset() == picked(sv, taken@),
                !hit ==> forall|j: int| 0 <= j < k && sv[j] == marker@ ==> taken@[j],
                hit ==> uv.take(i + 1).to_multiset() == picked(sv, taken@),
            decreases signature@.len() - k + if hit { 0int } else { 1int },
        {
            if !taken[k] && same_marker(signature[k], marker) {
                proof {
                    lemma_picked_take(sv, taken@, k as int);
                    assert(sv[k as int] == marker@);
                    assert(uv[i as int] == marker@);
                    assert(uv.take(i + 1) =~= uv.take(i as int).push(marker@));
                    vstd::seq_lib::to_multiset_build(uv.take(i as int), marker@);
                }
                taken.set(k, true);
                hit = true;
            } else {
                k += 1;
            }
        }
        if !hit {
            proof {
                let x = marker@;
                lemma_picked_bound(sv, taken@, x);
                assert(uv[i as int] == x);
                assert(uv.take(i + 1) =~= uv.take(i as int).push(x));
                vstd::seq_lib::to_multiset_build(uv.take(i as int), x);
                assert(uv.take(i + 1).to_multiset().count(x) == uv.take(i as int).to_multiset().count(x) + 1);
                assert(picked(sv, taken@).count(x) == sv.to_multiset().count(x));
                lemma_prefix_count(uv, i + 1, x);
                assert(uv.to_multiset().count(x) > sv.to_multiset().count(x));
            }
            return false;
        }
        i += 1;
    }
    proof {
        assert(uv.take(used@.len() as int) =~= uv);
        assert forall|x: MarkerModel| uv.to_multiset().count(x) <= sv.to_multiset().count(x) by {
            lemma_picked_bound(sv, taken@, x);
        }
    }
    true
}

proof fn lemma_picked_none(signature: Seq<MarkerModel>, taken: Seq<bool>)
    requires
        signature.len() <= taken.len(),
        forall|k: int| 0 <= k < taken.len() ==> !taken[k],
    ensures
        picked(signature, taken) =~= Multiset::empty(),
    decreases signature.len(),
{
    if signature.len() > 0 {
        lemma_picked_none(signature.drop_last(), taken);
    }
}

} // verus!
verus! {

/// The signatures of a verb, each a run of markers in the marker order.
pub open spec fn ways_view(found: Seq<Vec<Marker>>) -> Seq<Seq<MarkerModel>> {
    Seq::new(found.len(), |i: int| markers_view(found[i]@))
}

pub open spec fn entries_view(found: Seq<(String, Vec<Vec<Marker>>)>) -> Seq<(Seq<char>, Seq<Seq<MarkerModel>>)> {
    Seq::new(found.len(), |i: int| (found[i].0@, ways_view(found[i].1@)))
}

/// The signatures of the first entry for `verb`.
pub open spec fn first_ways(entries: Seq<(Seq<char>, Seq<Seq<MarkerModel>>)>, verb: Seq<char>) -> Seq<Seq<MarkerModel>>
    decreases entries.len(),
{
    if entries.len() == 0 {
        seq![]
    } else if entries[0].0 == verb {
        entries[0].1
    } else {
        first_ways(entries.drop_first(), verb)
    }
}

/// The table of verb signatures as a map from verbs to their signatures.
pub open spec fn table_of(entries: Seq<(Seq<char>, Seq<Seq<MarkerModel>>)>) -> Map<Seq<char>, Seq<Seq<MarkerModel>>> {
    Map::new(
        |verb: Seq<char>| exists|i: int| 0 <= i < entries.len() && #[trigger] entries[i].0 == verb,
        |verb: Seq<char>| first_ways(entries, verb),
    )
}

/// The signatures of `verb` after adding `signature`: added unless already
/// there.
pub open spec fn added(
    table: Map<Seq<char>, Seq<Seq<MarkerModel>>>,
    verb: Seq<char>,
    signature: Seq<MarkerModel>,
) -> Map<Seq<char>, Seq<Seq<MarkerModel>>> {
    if table.contains_key(verb) {
        if table[verb].contains(signature) {
            table
        } else {
            table.insert(verb, table[verb].push(signature))
        }
    } else {
        table.insert(verb, seq![signature])
    }
}

/// The verbs the program may call, each with the ways it can be called.
pub struct Signatures {
    entries: Vec<(String, Vec<Vec<Marker>>)>,
}

impl View for Signatures {
    type V = Map<Seq<char>, Seq<Seq<MarkerModel>>>;

    closed spec fn view(&self) -> Map<Seq<char>, Seq<Seq<MarkerModel>>> {
        table_of(entries_view(self.entries@))
    }
}

proof fn lemma_first_ways_at(entries: Seq<(Seq<char>, Seq<Seq<MarkerModel>>)>, verb: Seq<char>, i: int)
    requires
        0 <= i < entries.len(),
        entries[i].0 == verb,
        forall|j: int| 0 <= j < i ==> entries[j].0 != verb,
    ensures
        first_ways(entries, verb) == entries[i].1,
    decreases i,
{
    if i > 0 {
        lemma_first_ways_at(entries.drop_first(), verb, i - 1);
    }
}

proof fn lemma_first_ways_update(
    entries: Seq<(Seq<char>, Seq<Seq<MarkerModel>>)>,
    i: int,
    ways: Seq<Seq<MarkerModel>>,
    verb: Seq<char>,
)
    requires
        0 <= i < entries.len(),
    ensures
        verb != entries[i].0 ==> first_ways(entries.update(i, (entries[i].0, ways)), verb) == first_ways(
            entries,
            verb,
        ),
    decreases entries.len(),
{
    let changed = entries.update(i, (entries[i].0, ways));
    if i > 0 && entries[0].0 != verb {
        assert(changed.drop_first() =~= entries.drop_first().update(i - 1, (entries[i].0, ways)));
        lemma_first_ways_update(entries.drop_first(), i - 1, ways, verb);
    } else if i == 0 {
        assert(changed.drop_first() =~= entries.drop_first());
    } else {
        assert(changed[0] == entries[0]);
    }
}

proof fn lemma_first_ways_push(
    entries: Seq<(Seq<char>, Seq<Seq<MarkerModel>>)>,
    extra: (Seq<char>, Seq<Seq<MarkerModel>>),
    verb: Seq<char>,
)
    ensures
        (exists|i: int| 0 <= i < entries.len() && #[trigger] entries[i].0 == verb) ==> first_ways(
            entries.push(extra),
            verb,
        ) == first_ways(entries, verb),
        !(exists|i: int| 0 <= i < entries.len() && #[trigger] entries[i].0 == verb) && extra.0 == verb
            ==> first_ways(entries.push(extra), verb) == extra.1,
    decreases entries.len(),
{
    if entries.len() > 0 {
        assert(entries.push(extra).drop_first() =~= entries.drop_first().push(extra));
        lemma_first_ways_push(entries.drop_first(), extra, verb);
        if entries[0].0 != verb {
            if exists|i: int| 0 <= i < entries.len() && #[trigger] entries[i].0 == verb {
                let i = choose|i: int| 0 <= i < entries.len() && #[trigger] entries[i].0 == verb;
                assert(entries.drop_first()[i - 1].0 == verb);
            }
            if exists|i: int| 0 <= i < entries.drop_first().len() && #[trigger] entries.drop_first()[i].0 == verb {
                let i = choose|i: int| 0 <= i < entries.drop_first().len() && #[trigger] entries.drop_first()[i].0 == verb;
                assert(entries[i + 1].0 == verb);
            }
        }
    } else {
        assert(entries.push(extra)[0] == extra);
    }
}

fn copy_markers(found: &Vec<Marker>) -> (out: Vec<Marker>)
    ensures
        out@ == found@,
{
    let mut out: Vec<Marker> = Vec::new();
    let mut at: usize = 0;
    while at < found.len()
        invariant
            at <= found@.len(),
            out@ == found@.take(at as int),
        decreases found@.len() - at,
    {
        out.push(found[at]);
        assert(found@.take(at + 1) == found@.take(at as int).push(found@[at as int]));
        at += 1;
    }
    assert(found@.take(found@.len() as int) == found@);
    out
}

fn same_markers(left: &Vec<Marker>, right: &Vec<Marker>) -> (found: bool)
    ensures
        found == (markers_view(left@) == markers_view(right@)),
{
    if left.len() != right.len() {
        assert(markers_view(left@).len() != markers_view(right@).len());
        return false;
    }
    let mut at: usize = 0;
    while at < left.len()
        invariant
            at <= left@.len(),
            left@.len() == right@.len(),
            forall|j: int| 0 <= j < at ==> left@[j]@ == right@[j]@,
        decreases left@.len() - at,
    {
        if !same_marker(left[at], right[at]) {
            assert(markers_view(left@)[at as int] != markers_view(right@)[at as int]);
            return false;
        }
        at += 1;
    }
    assert(markers_view(left@) =~= markers_view(right@));
    true
}

impl Signatures {
    pub fn new() -> (made: Signatures)
        ensures
            made@ == Map::<Seq<char>, Seq<Seq<MarkerModel>>>::empty(),
    {
        let made = Signatures { entries: Vec::new() };
        assert(made@ =~= Map::<Seq<char>, Seq<Seq<MarkerModel>>>::empty());
        made
    }

    /// Where the entry for `verb` stands.
    fn position(&self, verb: &str) -> (found: Option<usize>)
        ensures
            match found {
                Some(i) => i < self.entries@.len() && self.entries@[i as int].0@ == verb@ && forall|j: int|
                    0 <= j < i ==> self.entries@[j].0@ != verb@,
                None => forall|j: int| 0 <= j < self.entries@.len() ==> self.entries@[j].0@ != verb@,
            },
    {
        let mut at: usize = 0;
        while at < self.entries.len()
            invariant
                at <= self.entries@.len(),
                forall|j: int| 0 <= j < at ==> self.entries@[j].0@ != verb@,
            decreases self.entries@.len() - at,
        {
            if same_text(self.entries[at].0.as_str(), verb) {
                return Some(at);
            }
            at += 1;
        }
        None
    }

    /// Adds a way to call `verb`, unless it is already known.
    pub fn add(&mut self, verb: &str, signature: Vec<Marker>)
        ensures
            final(self)@ == added(old(self)@, verb@, markers_view(signature@)),
    {
        let ghost old_entries = entries_view(self.entries@);
        let ghost sig = markers_view(signature@);
        match self.position(verb) {
            Some(i) => {
                proof {
                    assert forall|j: int| 0 <= j < i implies old_entries[j].0 != verb@ by {
                        assert(old_entries[j].0 == self.entries@[j].0@);
                    }
                    lemma_first_ways_at(old_entries, verb@, i as int);
                    assert(old_entries[i as int].0 == verb@);
                    assert(self@.contains_key(verb@));
                    assert(self@[verb@] == old_entries[i as int].1);
                }
                let mut present = false;
                let mut k: usize = 0;
                while k < self.entries[i].1.len()
                    invariant
                        i < self.entries@.len(),
                        k <= self.entries@[i as int].1@.len(),
                        present == exists|j: int| 0 <= j < k && #[trigger] markers_view(self.entries@[i as int].1@[j]@) == sig,
                        sig == markers_view(signature@),
                    decreases self.entries@[i as int].1@.len() - k,
                {
                    if same_markers(&self.entries[i].1[k], &signature) {
                        present = true;
                    }
                    k += 1;
                }
                let ghost ways = old_entries[i as int].1;
                proof {
                    if present {
                        let j = choose|j: int| 0 <= j < k && #[trigger] markers_view(self.entries@[i as int].1@[j]@) == sig;
                        assert(ways[j] == sig);
                    } else {
                        assert forall|j: int| 0 <= j < ways.len() implies ways[j] != sig by {
                            assert(ways[j] == markers_view(self.entries@[i as int].1@[j]@));
                        }
                    }
                }
                if !present {
                    let ghost before = self.entries@;
                    let (name, mut list) = self.entries.remove(i);
                    let ghost held = list@;
                    list.push(signature);
                    let ghost item = (name, list);
                    self.entries.insert(i, (name, list));
                    proof {
                        assert(self.entries@ =~= before.update(i as int, item));
                        assert(name@ == verb@);
                        assert(ways_view(item.1@) =~= ways.push(sig));
                        let now = entries_view(self.entries@);
                        assert(now =~= old_entries.update(i as int, (verb@, ways.push(sig))));
                        assert forall|v: Seq<char>| #[trigger] self@.contains_key(v) == added(old(self)@, verb@, sig).contains_key(v) by {
                            if exists|j: int| 0 <= j < now.len() && #[trigger] now[j].0 == v {
                                let j = choose|j: int| 0 <= j < now.len() && #[trigger] now[j].0 == v;
                                if j != i {
                                    assert(old_entries[j].0 == v);
                                }
                            }
                            if exists|j: int| 0 <= j < old_entries.len() && #[trigger] old_entries[j].0 == v {
                                let j = choose|j: int| 0 <= j < old_entries.len() && #[trigger] old_entries[j].0 == v;
                                if j != i {
                                    assert(now[j].0 == v);
                                } else {
                                    assert(now[i as int].0 == v);
                                }
                            }
                        }
                        assert forall|v: Seq<char>| self@.contains_key(v) implies #[trigger] self@[v] == added(old(self)@, verb@, sig)[v] by {
                            if v == verb@ {
                                assert forall|j: int| 0 <= j < i implies now[j].0 != verb@ by {
                                    assert(now[j] == old_entries[j]);
                                }
                                lemma_first_ways_at(now, verb@, i as int);
                            } else {
                                lemma_first_ways_update(old_entries, i as int, ways.push(sig), v);
                            }
                        }
                        assert(self@ =~= added(old(self)@, verb@, sig));
                    }
                }
            },
            None => {
                let name = crate::chars::owned(verb);
                let list = vec![signature];
                assert(list@ =~= seq![signature]);
                let ghost item = (name, list);
                self.entries.push((name, list));
                proof {
                    let now = entries_view(self.entries@);
                    let extra = (verb@, seq![sig]);
                    assert(ways_view(item.1@) =~= seq![sig]);
                    assert(now =~= old_entries.push(extra));
                    assert forall|j: int| 0 <= j < old_entries.len() implies old_entries[j].0 != verb@ by {
                        assert(old_entries[j].0 == old(self).entries@[j].0@);
                    }
                    assert(!old(self)@.contains_key(verb@));
                    assert forall|v: Seq<char>| #[trigger] self@.contains_key(v) == added(old(self)@, verb@, sig).contains_key(v) by {
                        if exists|j: int| 0 <= j < now.len() && #[trigger] now[j].0 == v {
                            let j = choose|j: int| 0 <= j < now.len() && #[trigger] now[j].0 == v;
                            if j < old_entries.len() {
                                assert(old_entries[j].0 == v);
                            }
                        }
                        if exists|j: int| 0 <= j < old_entries.len() && #[trigger] old_entries[j].0 == v {
                            let j = choose|j: int| 0 <= j < old_entries.len() && #[trigger] old_entries[j].0 == v;
                            assert(now[j].0 == v);
                        }
                        if v == verb@ {
                            assert(now[old_entries.len() as int].0 == v);
                        }
                    }
                    assert forall|v: Seq<char>| self@.contains_key(v) implies #[trigger] self@[v] == added(old(self)@, verb@, sig)[v] by {
                        lemma_first_ways_push(old_entries, extra, v);
                    }
                    assert(self@ =~= added(old(self)@, verb@, sig));
                }
            },
        }
    }

    /// The ways to call `verb`; none for a verb that is not known.
    pub fn ways(&self, verb: &str) -> (found: Vec<Vec<Marker>>)
        ensures
            ways_view(found@) == if self@.contains_key(verb@) {
                self@[verb@]
            } else {
                Seq::<Seq<MarkerModel>>::empty()
            },
    {
        let ghost all = entries_view(self.entries@);
        match self.position(verb) {
            Some(i) => {
                proof {
                    assert forall|j: int| 0 <= j < i implies all[j].0 != verb@ by {
                        assert(all[j].0 == self.entries@[j].0@);
                    }
                    lemma_first_ways_at(all, verb@, i as int);
                    assert(all[i as int].0 == verb@);
                }
                let list = &self.entries[i].1;
                let mut out: Vec<Vec<Marker>> = Vec::new();
                let mut k: usize = 0;
                while k < list.len()
                    invariant
                        k <= list@.len(),
                        ways_view(out@) == ways_view(list@).take(k as int),
                    decreases list@.len() - k,
                {
                    let copied = copy_markers(&list[k]);
                    let ghost before = ways_view(out@);
                    out.push(copied);
                    assert(markers_view(copied@) == markers_view(list@[k as int]@));
                    assert(ways_view(out@) =~= before.push(markers_view(copied@)));
                    assert(ways_view(list@).take(k + 1) =~= ways_view(list@).take(k as int).push(
                        ways_view(list@)[k as int],
                    ));
                    k += 1;
                }
                assert(ways_view(list@).take(list@.len() as int) =~= ways_view(list@));
                out
            },
            None => {
                proof {
                    assert forall|j: int| 0 <= j < all.len() implies all[j].0 != verb@ by {
                        assert(all[j].0 == self.entries@[j].0@);
                    }
                }
                let out: Vec<Vec<Marker>> = Vec::new();
                assert(ways_view(out@) =~= Seq::<Seq<MarkerModel>>::empty());
                out
            },
        }
    }

    /// Whether `verb` has a signature.
    pub fn knows(&self, verb: &str) -> (found: bool)
        ensures
            found == self@.contains_key(verb@),
    {
        let ghost all = entries_view(self.entries@);
        match self.position(verb) {
            Some(i) => {
                assert(all[i as int].0 == verb@);
                true
            },
            None => {
                assert forall|j: int| 0 <= j < all.len() implies all[j].0 != verb@ by {
                    assert(all[j].0 == self.entries@[j].0@);
                }
                false
            },
        }
    }
}

impl Default for Signatures {
    fn default() -> (made: Signatures)
        ensures
            made@ == Map::<Seq<char>, Seq<Seq<MarkerModel>>>::empty(),
    {
        Signatures::new()
    }
}

} // verus!
verus! {

/// Adding a signature keeps it: the verb is known afterwards and has it,
/// adding it again changes nothing, and no other verb changes.
pub proof fn law_add_keeps(
    table: Map<Seq<char>, Seq<Seq<MarkerModel>>>,
    verb: Seq<char>,
    signature: Seq<MarkerModel>,
    other: Seq<char>,
)
    ensures
        added(table, verb, signature).contains_key(verb),
        added(table, verb, signature)[verb].contains(signature),
        added(added(table, verb, signature), verb, signature) == added(table, verb, signature),
        other != verb ==> added(table, verb, signature).contains_key(other) == table.contains_key(other),
        other != verb && table.contains_key(other) ==> added(table, verb, signature)[other] == table[other],
{
    let after = added(table, verb, signature);
    if table.contains_key(verb) && !table[verb].contains(signature) {
        assert(after[verb][table[verb].len() as int] == signature);
    } else if !table.contains_key(verb) {
        assert(after[verb][0] == signature);
    }
}

/// The signatures of the built-in verbs, in the order they are added.
pub open spec fn builtin_signatures() -> Seq<(Seq<char>, Seq<MarkerModel>)> {
    seq![
        ("출력하다"@, seq![MarkerModel::Case("를"@)]),
        ("추가하다"@, seq![MarkerModel::Case("에"@), MarkerModel::Case("를"@)]),
        ("제거하다"@, seq![MarkerModel::Case("를"@)]),
        ("종료하다"@, seq![MarkerModel::Case("로"@)]),
        ("복사하다"@, seq![MarkerModel::Case("를"@)]),
        ("바꾸다"@, seq![MarkerModel::Case("를"@), MarkerModel::Case("로"@)]),
        ("더하다"@, seq![MarkerModel::Case("에"@), MarkerModel::Case("를"@)]),
        ("빼다"@, seq![MarkerModel::Case("에서"@), MarkerModel::Case("를"@)]),
        ("곱하다"@, seq![MarkerModel::Case("에"@), MarkerModel::Case("를"@)]),
        ("나누다"@, seq![MarkerModel::Case("를"@), MarkerModel::Case("로"@)]),
        ("크다"@, seq![MarkerModel::Case("가"@), MarkerModel::Case("보다"@)]),
        ("작다"@, seq![MarkerModel::Case("가"@), MarkerModel::Case("보다"@)]),
        ("같다"@, seq![MarkerModel::Case("가"@), MarkerModel::Case("와"@)]),
        ("같다"@, seq![MarkerModel::Case("가"@), MarkerModel::Case("보다"@)]),
        ("읽다"@, seq![MarkerModel::Case("에서"@), MarkerModel::Case("만큼"@)]),
        ("열다"@, seq![MarkerModel::Case("를"@), MarkerModel::Case("로"@)]),
        ("닫다"@, seq![MarkerModel::Case("를"@)]),
        ("쓰다"@, seq![MarkerModel::Case("에"@), MarkerModel::Case("를"@)]),
        ("가져오다"@, seq![MarkerModel::Case("를"@)]),
        ("반환하다"@, seq![MarkerModel::Case("를"@)]),
        ("이다"@, seq![MarkerModel::Case("가"@), MarkerModel::Bare]),
        ("이다"@, seq![MarkerModel::Case("가"@)]),
        ("이다"@, seq![MarkerModel::Bare]),
        ("아니다"@, seq![MarkerModel::Case("가"@), MarkerModel::Bare]),
        ("아니다"@, seq![MarkerModel::Case("가"@)]),
    ]
}

pub open spec fn builtin_list_view(found: Seq<(&'static str, Vec<Marker>)>) -> Seq<(Seq<char>, Seq<MarkerModel>)> {
    Seq::new(found.len(), |i: int| (found[i].0@, markers_view(found[i].1@)))
}

fn builtin_list() -> (found: Vec<(&'static str, Vec<Marker>)>)
    ensures
        builtin_list_view(found@) =~~= builtin_signatures(),
{
    let found = vec![
        ("출력하다", vec![Marker::Case("를")]),
        ("추가하다", vec![Marker::Case("에"), Marker::Case("를")]),
        ("제거하다", vec![Marker::Case("를")]),
        ("종료하다", vec![Marker::Case("로")]),
        ("복사하다", vec![Marker::Case("를")]),
        ("바꾸다", vec![Marker::Case("를"), Marker::Case("로")]),
        ("더하다", vec![Marker::Case("에"), Marker::Case("를")]),
        ("빼다", vec![Marker::Case("에서"), Marker::Case("를")]),
        ("곱하다", vec![Marker::Case("에"), Marker::Case("를")]),
        ("나누다", vec![Marker::Case("를"), Marker::Case("로")]),
        ("크다", vec![Marker::Case("가"), Marker::Case("보다")]),
        ("작다", vec![Marker::Case("가"), Marker::Case("보다")]),
        ("같다", vec![Marker::Case("가"), Marker::Case("와")]),
        ("같다", vec![Marker::Case("가"), Marker::Case("보다")]),
        ("읽다", vec![Marker::Case("에서"), Marker::Case("만큼")]),
        ("열다", vec![Marker::Case("를"), Marker::Case("로")]),
        ("닫다", vec![Marker::Case("를")]),
        ("쓰다", vec![Marker::Case("에"), Marker::Case("를")]),
        ("가져오다", vec![Marker::Case("를")]),
        ("반환하다", vec![Marker::Case("를")]),
        ("이다", vec![Marker::Case("가"), Marker::Bare]),
        ("이다", vec![Marker::Case("가")]),
        ("이다", vec![Marker::Bare]),
        ("아니다", vec![Marker::Case("가"), Marker::Bare]),
        ("아니다", vec![Marker::Case("가")]),
    ];
    assert(builtin_list_view(found@) =~~= builtin_signatures());
    found
}

/// The table after adding each of `table`'s signatures in order, its
/// markers in the marker order.
pub open spec fn all_added(table: Seq<(Seq<char>, Seq<MarkerModel>)>) -> Map<Seq<char>, Seq<Seq<MarkerModel>>>
    decreases table.len(),
{
    if table.len() == 0 {
        Map::empty()
    } else {
        added(all_added(table.drop_last()), table.last().0, sorted_markers(table.last().1))
    }
}

impl Signatures {
    /// The signatures of the built-in verbs.
    pub fn builtin() -> (made: Signatures)
        ensures
            made@ == all_added(builtin_signatures()),
    {
        let list = builtin_list();
        let mut table = Signatures::new();
        let mut at: usize = 0;
        while at < list.len()
            invariant
                at <= list@.len(),
                builtin_list_view(list@) =~~= builtin_signatures(),
                table@ == all_added(builtin_signatures().take(at as int)),
            decreases list@.len() - at,
        {
            let (verb, markers) = &list[at];
            assert(builtin_signatures().take(at + 1).drop_last() =~= builtin_signatures().take(at as int));
            assert(builtin_list_view(list@)[at as int] == (verb@, markers_view(markers@)));
            table.add(verb, ordered(markers.as_slice()));
            at += 1;
        }
        assert(builtin_signatures().take(list@.len() as int) =~= builtin_signatures());
        table
    }

    /// Whether `verb` is a built-in verb's name, which a program may not
    /// define again.
    pub fn reserved(verb: &str) -> (found: bool)
        ensures
            found == exists|i: int|
                0 <= i < builtin_signatures().len() && #[trigger] builtin_signatures()[i].0 == verb@,
    {
        let list = builtin_list();
        let mut at: usize = 0;
        while at < list.len()
            invariant
                at <= list@.len(),
                builtin_list_view(list@) =~~= builtin_signatures(),
                forall|j: int| 0 <= j < at ==> builtin_signatures()[j].0 != verb@,
            decreases list@.len() - at,
        {
            assert(builtin_list_view(list@)[at as int].0 == list@[at as int].0@);
            if same_text(list[at].0, verb) {
                return true;
            }
            at += 1;
        }
        false
    }
}

/// The labels of the markers other than "no marker".
pub open spec fn labels(markers: Seq<MarkerModel>) -> Seq<Seq<char>>
    decreases markers.len(),
{
    if markers.len() == 0 {
        seq![]
    } else {
        let rest = labels(markers.drop_last());
        if markers.last() is Bare {
            rest
        } else {
            rest.push(marker_label(markers.last()))
        }
    }
}

/// `parts` joined with commas.
pub open spec fn comma_joined(parts: Seq<Seq<char>>) -> Seq<char>
    decreases parts.len(),
{
    if parts.len() == 0 {
        seq![]
    } else if parts.len() == 1 {
        parts[0]
    } else {
        comma_joined(parts.drop_last()) + ", "@ + parts.last()
    }
}

/// How a run of markers is shown: its particles, or that there are none.
pub open spec fn shown_text(markers: Seq<MarkerModel>) -> Seq<char> {
    if labels(markers).len() == 0 {
        crate::msg::NO_PARTICLE@
    } else {
        comma_joined(labels(markers))
    }
}

pub fn shown(markers: &[Marker]) -> (out: String)
    ensures
        out@ == shown_text(markers_view(markers@)),
{
    let ghost all = markers_view(markers@);
    let mut out = String::new();
    let mut count: usize = 0;
    let mut at: usize = 0;
    assert(all.take(0) =~= Seq::<MarkerModel>::empty());
    while at < markers.len()
        invariant
            at <= markers@.len(),
            all == markers_view(markers@),
            count == labels(all.take(at as int)).len(),
            count <= at,
            out@ == comma_joined(labels(all.take(at as int))),
        decreases markers@.len() - at,
    {
        let marker = markers[at];
        assert(all.take(at + 1).drop_last() =~= all.take(at as int));
        assert(all.take(at + 1).last() == marker@);
        match marker {
            Marker::Bare => {},
            _ => {
                let ghost before = labels(all.take(at as int));
                let ghost after = before.push(marker_label(marker@));
                assert(labels(all.take(at + 1)) == after);
                assert(after.drop_last() =~= before);
                if count > 0 {
                    push_str(&mut out, ", ");
                } else {
                    assert(out@ =~= Seq::<char>::empty());
                }
                push_str(&mut out, marker.label());
                assert(out@ =~= comma_joined(after));
                count += 1;
            },
        }
        at += 1;
    }
    assert(all.take(markers@.len() as int) =~= all);
    if count == 0 {
        owned(crate::msg::NO_PARTICLE)
    } else {
        out
    }
}

/// How a verb is described with its particles: `~particle ` for each
/// marker but "no marker", then the verb.
pub open spec fn described(verb: Seq<char>, params: Seq<MarkerModel>) -> Seq<char>
    decreases params.len(),
{
    if params.len() == 0 {
        verb
    } else {
        let rest = described(verb, params.drop_first());
        if params[0] is Bare {
            rest
        } else {
            "~"@ + marker_label(params[0]) + " "@ + rest
        }
    }
}

pub fn describe(verb: &str, params: &[Marker]) -> (out: String)
    ensures
        out@ == described(verb@, markers_view(params@)),
{
    let ghost all = markers_view(params@);
    let mut out = String::new();
    let mut at: usize = 0;
    assert(all.skip(0) =~= all);
    while at < params.len()
        invariant
            at <= params@.len(),
            all == markers_view(params@),
            out@ + described(verb@, all.skip(at as int)) == described(verb@, all),
        decreases params@.len() - at,
    {
        let marker = params[at];
        let ghost rest = all.skip(at as int);
        assert(rest[0] == marker@);
        assert(rest.drop_first() =~= all.skip(at + 1));
        match marker {
            Marker::Bare => {},
            _ => {
                let ghost before = out@;
                push_str(&mut out, "~");
                push_str(&mut out, marker.label());
                push_str(&mut out, " ");
                assert(out@ + described(verb@, all.skip(at + 1)) =~= before + ("~"@ + marker_label(
                    marker@,
                ) + " "@ + described(verb@, all.skip(at + 1))));
            },
        }
        at += 1;
    }
    assert(all.skip(params@.len() as int) =~= Seq::<MarkerModel>::empty());
    push_str(&mut out, verb);
    out
}

} // verus!
