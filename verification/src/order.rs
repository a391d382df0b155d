//! The order of texts by their characters' scalar values, and sorting by it.
//! (For UTF-8 this is also the order of their bytes.)

use vstd::prelude::*;
use vstd::relations::{sorted_by, total_ordering};

use crate::chars::chars_of;
use crate::words::string_view;

verus! {

/// `left` comes no later than `right`: lexicographic order by code point.
pub open spec fn text_le(left: Seq<char>, right: Seq<char>) -> bool
    decreases left.len(),
{
    if left.len() == 0 {
        true
    } else if right.len() == 0 {
        false
    } else if (left[0] as u32) < (right[0] as u32) {
        true
    } else if left[0] == right[0] {
        text_le(left.drop_first(), right.drop_first())
    } else {
        false
    }
}

pub open spec fn text_order() -> spec_fn(Seq<char>, Seq<char>) -> bool {
    |left: Seq<char>, right: Seq<char>| text_le(left, right)
}

pub proof fn lemma_char_code_eq(a: char, b: char)
    requires
        a as u32 == b as u32,
    ensures
        a == b,
{
}

pub proof fn lemma_text_le_reflexive(a: Seq<char>)
    ensures
        text_le(a, a),
    decreases a.len(),
{
    if a.len() > 0 {
        lemma_text_le_reflexive(a.drop_first());
    }
}

pub proof fn lemma_text_le_antisymmetric(a: Seq<char>, b: Seq<char>)
    requires
        text_le(a, b),
        text_le(b, a),
    ensures
        a == b,
    decreases a.len(),
{
    if a.len() > 0 && b.len() > 0 {
        lemma_text_le_antisymmetric(a.drop_first(), b.drop_first());
        assert(a =~= seq![a[0]] + a.drop_first());
        assert(b =~= seq![b[0]] + b.drop_first());
    } else {
        assert(a.len() == 0 && b.len() == 0);
        assert(a =~= b);
    }
}

pub proof fn lemma_text_le_transitive(a: Seq<char>, b: Seq<char>, c: Seq<char>)
    requires
        text_le(a, b),
        text_le(b, c),
    ensures
        text_le(a, c),
    decreases a.len(),
{
    if a.len() > 0 && b.len() > 0 && c.len() > 0 {
        if a[0] == b[0] && b[0] == c[0] {
            lemma_text_le_transitive(a.drop_first(), b.drop_first(), c.drop_first());
        }
    }
}

pub proof fn lemma_text_le_connected(a: Seq<char>, b: Seq<char>)
    ensures
        text_le(a, b) || text_le(b, a),
    decreases a.len(),
{
    if a.len() > 0 && b.len() > 0 {
        if a[0] as u32 == b[0] as u32 {
            lemma_char_code_eq(a[0], b[0]);
            lemma_text_le_connected(a.drop_first(), b.drop_first());
        }
    }
}

/// The text order is a total order.
pub proof fn law_text_order_total()
    ensures
        total_ordering(text_order()),
{
    assert forall|a: Seq<char>| #[trigger] text_order()(a, a) by {
        lemma_text_le_reflexive(a);
    }
    assert forall|a: Seq<char>, b: Seq<char>|
        #[trigger] text_order()(a, b) && #[trigger] text_order()(b, a) implies a == b by {
        lemma_text_le_antisymmetric(a, b);
    }
    assert forall|a: Seq<char>, b: Seq<char>, c: Seq<char>|
        #[trigger] text_order()(a, b) && #[trigger] text_order()(b, c) implies text_order()(
        a,
        c,
    ) by {
        lemma_text_le_transitive(a, b, c);
    }
    assert forall|a: Seq<char>, b: Seq<char>|
        #[trigger] text_order()(a, b) || #[trigger] text_order()(b, a) by {
        lemma_text_le_connected(a, b);
    }
}

/// Whether `left` comes no later than `right` in the text order.
pub fn text_le_exec(left: &str, right: &str) -> (found: bool)
    ensures
        found == text_le(left@, right@),
{
    let a = chars_of(left);
    let b = chars_of(right);
    let mut at: usize = 0;
    assert(a@.skip(0) == a@ && b@.skip(0) == b@);
    while at < a.len() && at < b.len()
        invariant
            at <= a@.len(),
            at <= b@.len(),
            a@ == left@,
            b@ == right@,
            text_le(left@, right@) == text_le(a@.skip(at as int), b@.skip(at as int)),
        decreases a@.len() - at,
    {
        let x = a[at];
        let y = b[at];
        assert(a@.skip(at as int)[0] == x && b@.skip(at as int)[0] == y);
        if (x as u32) < (y as u32) {
            return true;
        }
        if x != y {
            return false;
        }
        assert(a@.skip(at as int).drop_first() == a@.skip(at + 1));
        assert(b@.skip(at as int).drop_first() == b@.skip(at + 1));
        at += 1;
    }
    at == a.len()
}

/// The texts of `found`, sorted: the one ordering of them by the text order.
pub open spec fn sorted_texts(found: Seq<Seq<char>>) -> Seq<Seq<char>> {
    choose|s: Seq<Seq<char>>| sorted_by(s, text_order()) && s.to_multiset() == found.to_multiset()
}

/// The texts sorted by the text order.
pub fn sort_texts(found: &Vec<String>) -> (sorted: Vec<String>)
    ensures
        string_view(sorted@) == sorted_texts(string_view(found@)),
        sorted_by(string_view(sorted@), text_order()),
        string_view(sorted@).to_multiset() == string_view(found@).to_multiset(),
{
    broadcast use vstd::seq_lib::group_to_multiset_ensures;

    proof {
        law_text_order_total();
    }
    let mut sorted: Vec<String> = Vec::new();
    let mut i: usize = 0;
    assert(string_view(sorted@) =~= Seq::<Seq<char>>::empty());
    assert(string_view(found@).take(0) =~= Seq::<Seq<char>>::empty());
    while i < found.len()
        invariant
            i <= found@.len(),
            total_ordering(text_order()),
            sorted_by(string_view(sorted@), text_order()),
            string_view(sorted@).to_multiset() == string_view(found@).take(i as int).to_multiset(),
        decreases found@.len() - i,
    {
        let item = &found[i];
        let ghost items = string_view(sorted@);
        let mut p: usize = 0;
        while p < sorted.len() && text_le_exec(sorted[p].as_str(), item.as_str())
            invariant
                p <= sorted@.len(),
                items == string_view(sorted@),
                forall|k: int| 0 <= k < p ==> text_le(items[k], item@),
            decreases sorted@.len() - p,
        {
            p += 1;
        }
        sorted.insert(p, item.clone());
        proof {
            let now = string_view(sorted@);
            assert(now =~= items.insert(p as int, item@));
            assert forall|x: int, y: int| 0 <= x < y < now.len() implies text_le(now[x], now[y]) by {
                if p < items.len() {
                    assert(!text_le(items[p as int], item@));
                    lemma_text_le_connected(items[p as int], item@);
                }
                if y == p {
                    assert(text_le(items[x], item@));
                } else if x == p {
                    assert(text_le(item@, items[p as int]));
                    assert(text_order()(items[p as int], items[y - 1]));
                    lemma_text_le_transitive(item@, items[p as int], items[y - 1]);
                } else if x < p && y > p {
                    assert(text_order()(items[x], items[y - 1]));
                } else if y < p {
                    assert(text_order()(items[x], items[y]));
                } else {
                    assert(text_order()(items[x - 1], items[y - 1]));
                }
            }
            vstd::seq_lib::to_multiset_insert(items, p as int, item@);
            assert(string_view(found@).take(i + 1) =~= string_view(found@).take(i as int).push(
                item@,
            ));
            vstd::seq_lib::to_multiset_build(string_view(found@).take(i as int), item@);
        }
        i += 1;
    }
    assert(string_view(found@).take(found@.len() as int) =~= string_view(found@));
    proof {
        let s = string_view(sorted@);
        assert(sorted_by(s, text_order()) && s.to_multiset() == string_view(found@).to_multiset());
        let other = sorted_texts(string_view(found@));
        vstd::seq_lib::lemma_sorted_unique(s, other, text_order());
    }
    sorted
}

} // verus!
verus! {

/// A named entry: a text and the number it stands for.
pub type Entry = (Seq<char>, u32);

/// Entries by their texts, then by their numbers (the order of a tuple of
/// a `String` and a number).
pub open spec fn entry_le(left: Entry, right: Entry) -> bool {
    if left.0 == right.0 {
        left.1 <= right.1
    } else {
        text_le(left.0, right.0)
    }
}

pub open spec fn entry_order() -> spec_fn(Entry, Entry) -> bool {
    |left: Entry, right: Entry| entry_le(left, right)
}

/// The entry order is a total order.
pub proof fn lemma_entry_order_total()
    ensures
        total_ordering(entry_order()),
{
    assert forall|a: Entry| #[trigger] entry_order()(a, a) by {}
    assert forall|a: Entry, b: Entry| #[trigger] entry_order()(a, b) && #[trigger] entry_order()(b, a) implies a == b by {
        if a.0 != b.0 {
            lemma_text_le_antisymmetric(a.0, b.0);
        }
    }
    assert forall|a: Entry, b: Entry, c: Entry|
        #[trigger] entry_order()(a, b) && #[trigger] entry_order()(b, c) implies entry_order()(a, c) by {
        if a.0 != b.0 && b.0 != c.0 {
            lemma_text_le_transitive(a.0, b.0, c.0);
            if a.0 == c.0 {
                lemma_text_le_antisymmetric(a.0, b.0);
            }
        }
    }
    assert forall|a: Entry, b: Entry| #[trigger] entry_order()(a, b) || #[trigger] entry_order()(b, a) by {
        lemma_text_le_connected(a.0, b.0);
    }
}

pub open spec fn entries_view(found: Seq<(String, u32)>) -> Seq<Entry> {
    Seq::new(found.len(), |i: int| (found[i].0@, found[i].1))
}

/// The entries sorted: the one ordering of them by the entry order.
pub open spec fn sorted_entries(found: Seq<Entry>) -> Seq<Entry> {
    choose|s: Seq<Entry>| sorted_by(s, entry_order()) && s.to_multiset() == found.to_multiset()
}

fn entry_le_exec(left: &(String, u32), right: &(String, u32)) -> (found: bool)
    ensures
        found == entry_le((left.0@, left.1), (right.0@, right.1)),
{
    if crate::chars::same_text(left.0.as_str(), right.0.as_str()) {
        left.1 <= right.1
    } else {
        text_le_exec(left.0.as_str(), right.0.as_str())
    }
}

/// The entries sorted by text, then number.
pub fn sort_entries(found: &Vec<(String, u32)>) -> (sorted: Vec<(String, u32)>)
    ensures
        entries_view(sorted@) == sorted_entries(entries_view(found@)),
        entries_view(sorted@).to_multiset() == entries_view(found@).to_multiset(),
{
    broadcast use vstd::seq_lib::group_to_multiset_ensures;

    proof {
        lemma_entry_order_total();
    }
    let mut sorted: Vec<(String, u32)> = Vec::new();
    let mut i: usize = 0;
    assert(entries_view(sorted@) =~= Seq::<Entry>::empty());
    assert(entries_view(found@).take(0) =~= Seq::<Entry>::empty());
    while i < found.len()
        invariant
            i <= found@.len(),
            total_ordering(entry_order()),
            sorted_by(entries_view(sorted@), entry_order()),
            entries_view(sorted@).to_multiset() == entries_view(found@).take(i as int).to_multiset(),
        decreases found@.len() - i,
    {
        let item = &found[i];
        let ghost key = (item.0@, item.1);
        let ghost items = entries_view(sorted@);
        let mut p: usize = 0;
        while p < sorted.len() && entry_le_exec(&sorted[p], item)
            invariant
                p <= sorted@.len(),
                items == entries_view(sorted@),
                key == (item.0@, item.1),
                forall|k: int| 0 <= k < p ==> entry_le(items[k], key),
            decreases sorted@.len() - p,
        {
            p += 1;
        }
        sorted.insert(p, (crate::chars::owned(item.0.as_str()), item.1));
        proof {
            let now = entries_view(sorted@);
            assert(now =~= items.insert(p as int, key));
            assert forall|x: int, y: int| 0 <= x < y < now.len() implies entry_le(now[x], now[y]) by {
                if p < items.len() {
                    assert(!entry_le(items[p as int], key));
                    assert(entry_order()(items[p as int], key) || entry_order()(key, items[p as int]));
                }
                if y == p {
                    assert(entry_le(items[x], key));
                } else if x == p {
                    assert(entry_order()(key, items[p as int]));
                    assert(entry_order()(items[p as int], items[y - 1]));
                } else if x < p && y > p {
                    assert(entry_order()(items[x], items[y - 1]));
                } else if y < p {
                    assert(entry_order()(items[x], items[y]));
                } else {
                    assert(entry_order()(items[x - 1], items[y - 1]));
                }
            }
            vstd::seq_lib::to_multiset_insert(items, p as int, key);
            assert(entries_view(found@)[i as int] == key);
            assert(entries_view(found@).take(i + 1) =~= entries_view(found@).take(i as int).push(key));
            vstd::seq_lib::to_multiset_build(entries_view(found@).take(i as int), key);
        }
        i += 1;
    }
    assert(entries_view(found@).take(found@.len() as int) =~= entries_view(found@));
    proof {
        let s = entries_view(sorted@);
        let other = sorted_entries(entries_view(found@));
        vstd::seq_lib::lemma_sorted_unique(s, other, entry_order());
    }
    sorted
}

} // verus!
