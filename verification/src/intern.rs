//! Interning: each distinct name gets a small number, and the number gives
//! the name back.

use vstd::prelude::*;

use crate::chars::{owned, same_text};

verus! {

pub type Symbol = u32;

/// The names seen so far; a name's symbol is its position.
pub struct Interner {
    names: Vec<String>,
}

impl View for Interner {
    type V = Seq<Seq<char>>;

    closed spec fn view(&self) -> Seq<Seq<char>> {
        Seq::new(self.names@.len(), |i: int| self.names@[i]@)
    }
}

/// What interning `text` leaves and gives: the names unchanged and the
/// position that holds `text`, when it is held; else the names with
/// `text` added at the end, and that new position.
pub open spec fn interned(names: Seq<Seq<char>>, text: Seq<char>) -> (Seq<Seq<char>>, int) {
    if names.contains(text) {
        (names, choose|k: int| 0 <= k < names.len() && names[k] == text)
    } else {
        (names.push(text), names.len() as int)
    }
}

/// No text is held twice.
pub open spec fn distinct_names(names: Seq<Seq<char>>) -> bool {
    forall|i: int, j: int| 0 <= i < j < names.len() ==> names[i] != names[j]
}

impl Interner {
    /// No name is held twice.
    pub open spec fn wf(&self) -> bool {
        forall|i: int, j: int| 0 <= i < j < self@.len() ==> self@[i] != self@[j]
    }

    /// An interner that holds no names.
    pub fn new() -> (made: Interner)
        ensures
            made@ == Seq::<Seq<char>>::empty(),
            made.wf(),
    {
        let made = Interner { names: Vec::new() };
        assert(made@ =~= Seq::<Seq<char>>::empty());
        made
    }

    /// The symbol of `text`: the one it already has, or the next free one.
    pub fn intern(&mut self, text: &str) -> (id: Symbol)
        requires
            old(self).wf(),
            old(self)@.len() <= u32::MAX,
        ensures
            final(self).wf(),
            old(self)@.contains(text@) ==> final(self)@ == old(self)@ && old(self)@[id as int]
                == text@,
            !old(self)@.contains(text@) ==> final(self)@ == old(self)@.push(text@) && id
                == old(self)@.len(),
            id < final(self)@.len(),
            final(self)@[id as int] == text@,
            (final(self)@, id as int) == interned(old(self)@, text@),
    {
        let mut at: usize = 0;
        while at < self.names.len()
            invariant
                at <= self.names@.len(),
                self@ == old(self)@,
                old(self).wf(),
                old(self)@.len() <= u32::MAX,
                self@.len() == self.names@.len(),
                forall|j: int| 0 <= j < at ==> self@[j] != text@,
            decreases self.names@.len() - at,
        {
            if same_text(self.names[at].as_str(), text) {
                assert(self@.len() == self.names@.len());
                assert(self@[at as int] == text@);
                assert(old(self)@.contains(text@));
                assert(self.wf());
                assert(at < u32::MAX);
                let id = at as Symbol;
                assert(id as int == at as int);
                proof {
                    let k = choose|k: int| 0 <= k < old(self)@.len() && old(self)@[k] == text@;
                    assert(0 <= k < old(self)@.len() && old(self)@[k] == text@);
                    if k < at {
                        assert(old(self)@[k] != old(self)@[at as int]);
                    } else if k > at {
                        assert(old(self)@[at as int] != old(self)@[k]);
                    }
                }
                return id;
            }
            at += 1;
        }
        assert(!self@.contains(text@));
        let id = self.names.len() as Symbol;
        let ghost before = self@;
        self.names.push(owned(text));
        assert(self@ =~= before.push(text@));
        assert forall|i: int, j: int| 0 <= i < j < self@.len() implies self@[i] != self@[j] by {
            if j == before.len() {
                assert(self@[i] == before[i]);
            }
        }
        id
    }

    /// The name of a symbol that this interner gave out.
    pub fn name(&self, symbol: Symbol) -> (name: &str)
        requires
            (symbol as int) < self@.len(),
        ensures
            name@ == self@[symbol as int],
    {
        self.names[symbol as usize].as_str()
    }

    pub fn len(&self) -> (count: usize)
        ensures
            count == self@.len(),
    {
        self.names.len()
    }

    pub fn is_empty(&self) -> (empty: bool)
        ensures
            empty == (self@.len() == 0),
    {
        self.names.len() == 0
    }
}

impl Default for Interner {
    fn default() -> (made: Interner)
        ensures
            made@ == Seq::<Seq<char>>::empty(),
            made.wf(),
    {
        Interner::new()
    }
}

/// A well-formed interner holds each name once, so the symbol of a name is
/// unique: interning a name it already holds gives back that same symbol.
pub proof fn law_symbol_unique(interner: Interner, i: Symbol, j: Symbol)
    requires
        interner.wf(),
        (i as int) < interner@.len(),
        (j as int) < interner@.len(),
        interner@[i as int] == interner@[j as int],
    ensures
        i == j,
{
}

/// Interning keeps names distinct and gives each text one symbol:
/// interning a text a second time changes nothing and gives the symbol it
/// got the first time; the symbol names the text; and two different texts
/// never get the same symbol.
pub proof fn law_intern_stable(names: Seq<Seq<char>>, text: Seq<char>, other: Seq<char>)
    requires
        distinct_names(names),
    ensures
        distinct_names(interned(names, text).0),
        interned(interned(names, text).0, text) == interned(names, text),
        0 <= interned(names, text).1 < interned(names, text).0.len(),
        interned(names, text).0[interned(names, text).1] == text,
        text != other ==> interned(interned(names, text).0, other).1 != interned(names, text).1,
        names.contains(text) ==> interned(names, text).0.len() == names.len(),
        !names.contains(text) ==> interned(names, text).0.len() == names.len() + 1,
{
    let (after, id) = interned(names, text);
    if names.contains(text) {
        let k = choose|k: int| 0 <= k < names.len() && names[k] == text;
        assert(0 <= k < names.len() && names[k] == text);
    } else {
        assert forall|i: int, j: int| 0 <= i < j < after.len() implies after[i] != after[j] by {
            if j == names.len() {
                assert(after[i] == names[i]);
                assert(names.contains(names[i]));
            }
        }
        assert(after[names.len() as int] == text);
    }
    assert(after.contains(text)) by {
        assert(after[id] == text);
    }
    let again = choose|k: int| 0 <= k < after.len() && after[k] == text;
    assert(0 <= again < after.len() && after[again] == text);
    if again != id {
        if again < id {
            assert(after[again] != after[id]);
        } else {
            assert(after[id] != after[again]);
        }
    }
    if text != other {
        let (later, oid) = interned(after, other);
        if after.contains(other) {
            let o = choose|k: int| 0 <= k < after.len() && after[k] == other;
            assert(0 <= o < after.len() && after[o] == other);
        }
    }
}

} // verus!
