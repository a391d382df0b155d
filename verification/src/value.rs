//! Run-time values as compiled programs hold them: a tag and 64 bits, and
//! the tables that group values by position and by key.

use vstd::prelude::*;

use crate::chars::same_text;

verus! {

pub const NOTHING: u64 = 0;

pub const BOOL: u64 = 1;

pub const INT: u64 = 2;

pub const FLOAT: u64 = 3;

pub const STR: u64 = 4;

pub const TABLE: u64 = 5;

/// A value: what kind it is, and its bits (the integer, the truth, the
/// real's bits, or where a text or table lives).
#[derive(Clone, Copy)]
pub struct Value {
    pub tag: u64,
    pub bits: u64,
}

/// What a kind is called where a kind of value is asked for.
pub open spec fn kind_name(tag: u64) -> Seq<char> {
    if tag == BOOL {
        "논리값"@
    } else if tag == INT || tag == FLOAT {
        "수"@
    } else if tag == STR {
        "문자열"@
    } else if tag == TABLE {
        "묶음"@
    } else {
        "값"@
    }
}

/// What a value's exact type is called.
pub open spec fn type_label(tag: u64) -> Seq<char> {
    if tag == NOTHING {
        "없음"@
    } else if tag == BOOL {
        "논리값"@
    } else if tag == INT {
        "정수"@
    } else if tag == FLOAT {
        "실수"@
    } else if tag == STR {
        "문자열"@
    } else if tag == TABLE {
        "묶음"@
    } else {
        "값"@
    }
}

impl Value {
    pub fn nothing() -> (made: Value)
        ensures
            made.tag == NOTHING,
            made.bits == 0,
    {
        Value { tag: NOTHING, bits: 0 }
    }

    pub fn from_int(found: i64) -> (made: Value)
        ensures
            made.tag == INT,
            made.bits == found as u64,
    {
        Value { tag: INT, bits: found as u64 }
    }

    pub fn bool(found: bool) -> (made: Value)
        ensures
            made.tag == BOOL,
            made.bits == if found {
                1u64
            } else {
                0u64
            },
    {
        Value {
            tag: BOOL,
            bits: if found {
                1
            } else {
                0
            },
        }
    }

    pub fn as_int(&self) -> (found: i64)
        ensures
            found == self.bits as i64,
    {
        self.bits as i64
    }

    pub fn as_bool(&self) -> (found: bool)
        ensures
            found == (self.bits != 0),
    {
        self.bits != 0
    }

    pub fn number(&self) -> (found: bool)
        ensures
            found == (self.tag == INT || self.tag == FLOAT),
    {
        self.tag == INT || self.tag == FLOAT
    }

    pub fn kind(&self) -> (found: &'static str)
        ensures
            found@ == kind_name(self.tag),
    {
        if self.tag == BOOL {
            "논리값"
        } else if self.tag == INT || self.tag == FLOAT {
            "수"
        } else if self.tag == STR {
            "문자열"
        } else if self.tag == TABLE {
            "묶음"
        } else {
            "값"
        }
    }

    pub fn type_text(&self) -> (found: &'static str)
        ensures
            found@ == type_label(self.tag),
    {
        if self.tag == NOTHING {
            "없음"
        } else if self.tag == BOOL {
            "논리값"
        } else if self.tag == INT {
            "정수"
        } else if self.tag == FLOAT {
            "실수"
        } else if self.tag == STR {
            "문자열"
        } else if self.tag == TABLE {
            "묶음"
        } else {
            "값"
        }
    }
}

/// An integer comes back out of the value it is put in, and so does a
/// truth.
pub proof fn law_value_round_trip(n: i64, b: bool)
    ensures
        (n as u64) as i64 == n,
        (if b {
            1u64
        } else {
            0u64
        } != 0) == b,
{
    assert((n as u64) as i64 == n) by (bit_vector);
}

/// A table: values by position, and values by key.
pub struct Table {
    pub items: Vec<Value>,
    pub keys: Vec<(&'static str, Value)>,
}

pub open spec fn keys_view(found: Seq<(&'static str, Value)>) -> Seq<(Seq<char>, Value)> {
    Seq::new(found.len(), |i: int| (found[i].0@, found[i].1))
}

/// The value of the first entry for `key`.
pub open spec fn key_lookup(keys: Seq<(Seq<char>, Value)>, key: Seq<char>) -> Option<Value>
    decreases keys.len(),
{
    if keys.len() == 0 {
        None
    } else if keys[0].0 == key {
        Some(keys[0].1)
    } else {
        key_lookup(keys.drop_first(), key)
    }
}

/// Where the first entry for `key` stands.
pub open spec fn key_index(keys: Seq<(Seq<char>, Value)>, key: Seq<char>) -> Option<int>
    decreases keys.len(),
{
    if keys.len() == 0 {
        None
    } else if keys[0].0 == key {
        Some(0)
    } else {
        match key_index(keys.drop_first(), key) {
            Some(i) => Some(i + 1),
            None => None,
        }
    }
}

/// Each key has one entry.
pub open spec fn distinct_keys(keys: Seq<(Seq<char>, Value)>) -> bool {
    forall|i: int, j: int| 0 <= i < j < keys.len() ==> keys[i].0 != keys[j].0
}

/// The entries after putting `value` under `key`: its entry is changed, or
/// one is added at the end.
pub open spec fn keys_put(keys: Seq<(Seq<char>, Value)>, key: Seq<char>, value: Value) -> Seq<(Seq<char>, Value)> {
    match key_index(keys, key) {
        Some(i) => keys.update(i, (key, value)),
        None => keys.push((key, value)),
    }
}

/// The entries after dropping `key`'s entry.
pub open spec fn keys_drop(keys: Seq<(Seq<char>, Value)>, key: Seq<char>) -> Seq<(Seq<char>, Value)> {
    match key_index(keys, key) {
        Some(i) => keys.remove(i),
        None => keys,
    }
}

pub proof fn lemma_key_index(keys: Seq<(Seq<char>, Value)>, key: Seq<char>)
    ensures
        match key_index(keys, key) {
            Some(i) => 0 <= i < keys.len() && keys[i].0 == key && key_lookup(keys, key) == Some(keys[i].1)
                && forall|j: int| 0 <= j < i ==> keys[j].0 != key,
            None => key_lookup(keys, key) is None && forall|j: int| 0 <= j < keys.len() ==> keys[j].0 != key,
        },
    decreases keys.len(),
{
    if keys.len() > 0 && keys[0].0 != key {
        lemma_key_index(keys.drop_first(), key);
        assert forall|j: int| 1 <= j < keys.len() implies keys[j] == keys.drop_first()[j - 1] by {}
    }
}

proof fn lemma_lookup_unique(keys: Seq<(Seq<char>, Value)>, key: Seq<char>, i: int)
    requires
        0 <= i < keys.len(),
        keys[i].0 == key,
        forall|j: int| 0 <= j < i ==> keys[j].0 != key,
    ensures
        key_index(keys, key) == Some(i),
    decreases i,
{
    if i > 0 {
        lemma_lookup_unique(keys.drop_first(), key, i - 1);
    }
}

proof fn lemma_lookup_absent(keys: Seq<(Seq<char>, Value)>, key: Seq<char>)
    requires
        forall|j: int| 0 <= j < keys.len() ==> keys[j].0 != key,
    ensures
        key_index(keys, key) is None,
        key_lookup(keys, key) is None,
    decreases keys.len(),
{
    if keys.len() > 0 {
        lemma_lookup_absent(keys.drop_first(), key);
    }
}

impl Table {
    /// Where the entry for `key` stands.
    fn position(&self, key: &str) -> (found: Option<usize>)
        ensures
            match found {
                Some(i) => key_index(keys_view(self.keys@), key@) == Some(i as int),
                None => key_index(keys_view(self.keys@), key@) is None,
            },
    {
        let ghost all = keys_view(self.keys@);
        let mut at: usize = 0;
        while at < self.keys.len()
            invariant
                at <= self.keys@.len(),
                all == keys_view(self.keys@),
                forall|j: int| 0 <= j < at ==> all[j].0 != key@,
            decreases self.keys@.len() - at,
        {
            if same_text(self.keys[at].0, key) {
                proof {
                    lemma_lookup_unique(all, key@, at as int);
                }
                return Some(at);
            }
            at += 1;
        }
        proof {
            lemma_lookup_absent(all, key@);
        }
        None
    }

    /// The value under `key`.
    pub fn get(&self, key: &str) -> (found: Option<Value>)
        ensures
            found == key_lookup(keys_view(self.keys@), key@),
    {
        proof {
            lemma_key_index(keys_view(self.keys@), key@);
        }
        match self.position(key) {
            Some(i) => Some(self.keys[i].1),
            None => None,
        }
    }

    /// Puts `value` under `key`.
    pub fn put(&mut self, key: &'static str, value: Value)
        ensures
            keys_view(final(self).keys@) == keys_put(keys_view(old(self).keys@), key@, value),
            final(self).items@ == old(self).items@,
    {
        let ghost before = keys_view(self.keys@);
        proof {
            lemma_key_index(before, key@);
        }
        match self.position(key) {
            Some(i) => {
                self.keys.set(i, (key, value));
                assert(keys_view(self.keys@) =~= before.update(i as int, (key@, value)));
            },
            None => {
                self.keys.push((key, value));
                assert(keys_view(self.keys@) =~= before.push((key@, value)));
            },
        }
    }

    /// Drops `key`'s entry; whether there was one.
    pub fn drop_key(&mut self, key: &str) -> (dropped: bool)
        ensures
            keys_view(final(self).keys@) == keys_drop(keys_view(old(self).keys@), key@),
            dropped == key_index(keys_view(old(self).keys@), key@) is Some,
            final(self).items@ == old(self).items@,
    {
        let ghost before = keys_view(self.keys@);
        proof {
            lemma_key_index(before, key@);
        }
        match self.position(key) {
            Some(i) => {
                self.keys.remove(i);
                assert(keys_view(self.keys@) =~= before.remove(i as int));
                true
            },
            None => false,
        }
    }

    /// Whether the table holds nothing.
    pub fn empty(&self) -> (found: bool)
        ensures
            found == (self.items@.len() == 0 && self.keys@.len() == 0),
    {
        self.items.len() == 0 && self.keys.len() == 0
    }
}

/// What a put does to lookups: the key now finds the value put, other keys
/// find what they found; and each key keeps one entry.
pub proof fn law_put_then_get(keys: Seq<(Seq<char>, Value)>, key: Seq<char>, value: Value, other: Seq<char>)
    ensures
        key_lookup(keys_put(keys, key, value), key) == Some(value),
        other != key ==> key_lookup(keys_put(keys, key, value), other) == key_lookup(keys, other),
        distinct_keys(keys) ==> distinct_keys(keys_put(keys, key, value)),
{
    lemma_key_index(keys, key);
    lemma_key_index(keys, other);
    let after = keys_put(keys, key, value);
    match key_index(keys, key) {
        Some(i) => {
            lemma_lookup_unique(after, key, i);
            lemma_key_index(after, key);
            if other != key {
                match key_index(keys, other) {
                    Some(k) => {
                        lemma_lookup_unique(after, other, k);
                        lemma_key_index(after, other);
                    },
                    None => {
                        lemma_lookup_absent(after, other);
                    },
                }
            }
        },
        None => {
            lemma_lookup_unique(after, key, keys.len() as int);
            lemma_key_index(after, key);
            if other != key {
                match key_index(keys, other) {
                    Some(k) => {
                        lemma_lookup_unique(after, other, k);
                        lemma_key_index(after, other);
                    },
                    None => {
                        lemma_lookup_absent(after, other);
                    },
                }
            }
        },
    }
}

/// What a drop does to lookups in a table whose keys each have one entry:
/// the key finds nothing, other keys find what they found.
pub proof fn law_drop_then_get(keys: Seq<(Seq<char>, Value)>, key: Seq<char>, other: Seq<char>)
    requires
        distinct_keys(keys),
    ensures
        key_lookup(keys_drop(keys, key), key) is None,
        other != key ==> key_lookup(keys_drop(keys, key), other) == key_lookup(keys, other),
        distinct_keys(keys_drop(keys, key)),
{
    lemma_key_index(keys, key);
    lemma_key_index(keys, other);
    let after = keys_drop(keys, key);
    match key_index(keys, key) {
        Some(i) => {
            assert forall|j: int| 0 <= j < after.len() implies after[j].0 != key by {
                if j < i {
                    assert(after[j] == keys[j]);
                } else {
                    assert(after[j] == keys[j + 1]);
                }
            }
            lemma_lookup_absent(after, key);
            if other != key {
                match key_index(keys, other) {
                    Some(k) => {
                        let at = if k < i {
                            k
                        } else {
                            k - 1
                        };
                        assert(after[at] == keys[k]);
                        assert forall|j: int| 0 <= j < at implies after[j].0 != other by {
                            if j < i {
                                assert(after[j] == keys[j]);
                            } else {
                                assert(after[j] == keys[j + 1]);
                            }
                        }
                        lemma_lookup_unique(after, other, at);
                        lemma_key_index(after, other);
                    },
                    None => {
                        assert forall|j: int| 0 <= j < after.len() implies after[j].0 != other by {
                            if j < i {
                                assert(after[j] == keys[j]);
                            } else {
                                assert(after[j] == keys[j + 1]);
                            }
                        }
                        lemma_lookup_absent(after, other);
                    },
                }
            }
            assert forall|x: int, y: int| 0 <= x < y < after.len() implies after[x].0 != after[y].0 by {
                let kx = if x < i {
                    x
                } else {
                    x + 1
                };
                let ky = if y < i {
                    y
                } else {
                    y + 1
                };
                assert(after[x] == keys[kx]);
                assert(after[y] == keys[ky]);
            }
        },
        None => {},
    }
}

} // verus!
verus! {

/// Whether both values are integers.
pub fn both_int(left: &Value, right: &Value) -> (found: bool)
    ensures
        found == (left.tag == INT && right.tag == INT),
{
    left.tag == INT && right.tag == INT
}

} // verus!
