//! The JSON values that a CryptoBOM document and a comparison report are made of.
//!
//! Numbers are held as integers: every number this library writes or reads is
//! an integer count or score. A number without an exact `i64` value (a fraction,
//! or one out of range) is kept as [`Json::OtherNumber`], which has no integer
//! reading. An object ([`JsonObject`]) keeps its members sorted by key, each key
//! once, as a `BTreeMap<String, Json>` does; that is its type invariant.

use vstd::prelude::*;

use crate::text::{
    lemma_text_lt_irreflexive, lemma_text_lt_total, lemma_text_lt_transitive, text_equal, text_less,
    text_lt,
};

verus! {

/// An owned JSON value.
#[derive(Debug)]
pub enum Json {
    Null,
    Bool(bool),
    /// A number with an exact `i64` value.
    Number(i64),
    /// A number without an exact `i64` value.
    OtherNumber,
    String(String),
    Array(Vec<Json>),
    Object(JsonObject),
}

/// A JSON object: its members, sorted by key with each key once.
#[derive(Debug)]
pub struct JsonObject {
    members: Vec<(String, Json)>,
}

/// The value of the first member of `members` whose key is `key`.
pub open spec fn lookup(members: Seq<(String, Json)>, key: Seq<char>) -> Option<Json>
    decreases members.len(),
{
    if members.len() == 0 {
        None
    } else if members[0].0@ == key {
        Some(members[0].1)
    } else {
        lookup(members.drop_first(), key)
    }
}

/// `j` is a JSON string whose text is `t`.
pub open spec fn is_text(j: Json, t: Seq<char>) -> bool {
    j matches Json::String(s) && s@ == t
}

/// The keys of `members` come in strictly ascending order.
pub open spec fn keys_ascending(members: Seq<(String, Json)>) -> bool {
    forall|i: int, j: int| 0 <= i < j < members.len() ==> text_lt(members[i].0@, members[j].0@)
}

/// The integer reading of an optional value, as `and_then(as_i64)` gives it.
pub open spec fn int_of(v: Option<Json>) -> Option<i64> {
    match v {
        Some(Json::Number(n)) => Some(n),
        _ => None,
    }
}

/// The text of an optional value, if it is a string.
pub open spec fn text_of(v: Option<Json>) -> Option<Seq<char>> {
    match v {
        Some(Json::String(s)) => Some(s@),
        _ => None,
    }
}

impl Json {
    /// An integer-valued number.
    pub fn from_i64(value: i64) -> (j: Json)
        ensures
            j == Json::Number(value),
    {
        Json::Number(value)
    }

    /// The value as a string slice, if it is a string.
    pub fn as_str(&self) -> (r: Option<&str>)
        ensures
            match r {
                Some(s) => is_text(*self, s@),
                None => !(self is String),
            },
    {
        match self {
            Json::String(s) => Some(s.as_str()),
            _ => None,
        }
    }

    /// The value as an integer, if it is a number with an exact `i64` value.
    pub fn as_i64(&self) -> (r: Option<i64>)
        ensures
            r == int_of(Some(*self)),
    {
        match self {
            Json::Number(n) => Some(*n),
            _ => None,
        }
    }

    /// The value as an object, if it is one.
    pub fn as_object(&self) -> (r: Option<&JsonObject>)
        ensures
            match r {
                Some(m) => *self == Json::Object(*m),
                None => !(self is Object),
            },
    {
        match self {
            Json::Object(m) => Some(m),
            _ => None,
        }
    }

    /// The elements of the value, if it is an array.
    pub fn as_array(&self) -> (r: Option<&Vec<Json>>)
        ensures
            match r {
                Some(a) => *self == Json::Array(*a),
                None => !(self is Array),
            },
    {
        match self {
            Json::Array(a) => Some(a),
            _ => None,
        }
    }
}

/// Where the keys ascend, a key's value is that of the one member with that key,
/// and a key that no member has has no value.
pub proof fn lemma_lookup_sorted(members: Seq<(String, Json)>, key: Seq<char>)
    requires
        keys_ascending(members),
    ensures
        (forall|i: int| 0 <= i < members.len() ==> (#[trigger] members[i]).0@ != key) ==> lookup(
            members,
            key,
        ) is None,
        forall|i: int|
            0 <= i < members.len() && (#[trigger] members[i]).0@ == key ==> lookup(members, key)
                == Some(members[i].1),
    decreases members.len(),
{
    if members.len() > 0 {
        let rest = members.drop_first();
        assert forall|a: int, b: int| 0 <= a < b < rest.len() implies text_lt(
            rest[a].0@,
            rest[b].0@,
        ) by {
            assert(rest[a] == members[a + 1]);
            assert(rest[b] == members[b + 1]);
        }
        lemma_lookup_sorted(rest, key);
        assert forall|i: int| 0 <= i < members.len() && (#[trigger] members[i]).0@ == key implies lookup(
            members,
            key,
        ) == Some(members[i].1) by {
            if i > 0 {
                assert(rest[i - 1] == members[i]);
                lemma_text_lt_irreflexive(key);
            }
        }
        if forall|i: int| 0 <= i < members.len() ==> (#[trigger] members[i]).0@ != key {
            assert forall|i: int| 0 <= i < rest.len() implies (#[trigger] rest[i]).0@ != key by {
                assert(rest[i] == members[i + 1]);
            }
        }
    }
}

impl JsonObject {
    #[verifier::type_invariant]
    spec fn keys_sorted(self) -> bool {
        keys_ascending(self.members@)
    }

    /// The members, sorted by key.
    pub closed spec fn entries(self) -> Seq<(String, Json)> {
        self.members@
    }

    /// An object without members.
    pub fn new() -> (o: JsonObject)
        ensures
            o.entries().len() == 0,
    {
        JsonObject { members: Vec::new() }
    }

    /// An object of the given members, which must be sorted by key, each key once.
    pub fn from_sorted(members: Vec<(String, Json)>) -> (o: JsonObject)
        requires
            keys_ascending(members@),
        ensures
            o.entries() == members@,
    {
        JsonObject { members }
    }

    /// The members, sorted by key with each key once.
    pub fn members(&self) -> (r: &Vec<(String, Json)>)
        ensures
            r@ == self.entries(),
            keys_ascending(r@),
    {
        proof {
            use_type_invariant(self);
        }
        &self.members
    }

    /// The number of members.
    pub fn len(&self) -> (n: usize)
        ensures
            n == self.entries().len(),
    {
        self.members.len()
    }

    /// The value under `key`, if there is one.
    pub fn get(&self, key: &str) -> (r: Option<&Json>)
        ensures
            match r {
                Some(v) => lookup(self.entries(), key@) == Some(*v),
                None => lookup(self.entries(), key@) is None,
            },
    {
        let members = &self.members;
        assert(members@ == self.entries());
        let n: usize = members.len();
        let mut i: usize = 0;
        assert(members@.skip(0) =~= members@);
        while i < n
            invariant
                n == members@.len(),
                members@ == self.entries(),
                i <= n,
                lookup(members@, key@) == lookup(members@.skip(i as int), key@),
            decreases n - i,
        {
            if text_equal(members[i].0.as_str(), key) {
                assert(members@.skip(i as int)[0] == members@[i as int]);
                return Some(&members[i].1);
            }
            assert(members@.skip(i as int).drop_first() =~= members@.skip(i + 1));
            i = i + 1;
        }
        None
    }

    /// Sets the value under `key`, replacing any value it had; the other keys
    /// keep their values.
    pub fn insert(&mut self, key: String, value: Json)
        ensures
            lookup(final(self).entries(), key@) == Some(value),
            forall|k: Seq<char>|
                k != key@ ==> lookup(final(self).entries(), k) == lookup(old(self).entries(), k),
            final(self).entries().len() == old(self).entries().len() + if lookup(
                old(self).entries(),
                key@,
            ) is None {
                1int
            } else {
                0int
            },
    {
        proof {
            use_type_invariant(&*self);
        }
        let mut ms: Vec<(String, Json)> = Vec::new();
        std::mem::swap(&mut ms, &mut self.members);
        let ghost old_ms = ms@;
        assert(old_ms == old(self).entries());
        let ghost k = key@;
        let n: usize = ms.len();
        let mut p: usize = 0;
        while p < n && text_less(ms[p].0.as_str(), key.as_str())
            invariant
                n == ms@.len(),
                ms@ == old_ms,
                keys_ascending(old_ms),
                p <= n,
                k == key@,
                forall|j: int| 0 <= j < p ==> text_lt((#[trigger] ms@[j]).0@, k),
            decreases n - p,
        {
            p = p + 1;
        }
        proof {
            lemma_lookup_sorted(old_ms, k);
        }
        if p < n && text_equal(ms[p].0.as_str(), key.as_str()) {
            ms.set(p, (key, value));
            proof {
                let new_ms = ms@;
                assert(new_ms == old_ms.update(p as int, new_ms[p as int]));
                assert forall|i: int, j: int| 0 <= i < j < new_ms.len() implies text_lt(
                    new_ms[i].0@,
                    new_ms[j].0@,
                ) by {
                    assert(new_ms[i].0@ == old_ms[i].0@);
                    assert(new_ms[j].0@ == old_ms[j].0@);
                }
                lemma_lookup_sorted(new_ms, k);
                assert forall|kk: Seq<char>| kk != k implies lookup(new_ms, kk) == lookup(
                    old_ms,
                    kk,
                ) by {
                    lemma_lookup_sorted(new_ms, kk);
                    lemma_lookup_sorted(old_ms, kk);
                    if exists|i: int| 0 <= i < old_ms.len() && (#[trigger] old_ms[i]).0@ == kk {
                        let i = choose|i: int| 0 <= i < old_ms.len() && (#[trigger] old_ms[i]).0@ == kk;
                        assert(new_ms[i] == old_ms[i]);
                    } else {
                        assert forall|i: int| 0 <= i < new_ms.len() implies (#[trigger] new_ms[i]).0@
                            != kk by {
                            if i != p {
                                assert(new_ms[i] == old_ms[i]);
                            }
                        }
                    }
                }
            }
        } else {
            proof {
                if p < n {
                    lemma_text_lt_total(old_ms[p as int].0@, k);
                }
                assert forall|j: int| p <= j < n implies text_lt(k, (#[trigger] old_ms[j]).0@) by {
                    lemma_text_lt_total(old_ms[p as int].0@, k);
                    if j > p {
                        lemma_text_lt_transitive(k, old_ms[p as int].0@, old_ms[j].0@);
                    }
                }
                assert forall|i: int| 0 <= i < n implies (#[trigger] old_ms[i]).0@ != k by {
                    lemma_text_lt_irreflexive(k);
                }
            }
            ms.insert(p, (key, value));
            proof {
                let new_ms = ms@;
                assert(new_ms == old_ms.insert(p as int, new_ms[p as int]));
                assert forall|i: int, j: int| 0 <= i < j < new_ms.len() implies text_lt(
                    new_ms[i].0@,
                    new_ms[j].0@,
                ) by {
                    if i < p && j == p {
                    } else if i < p && j > p {
                        assert(new_ms[j] == old_ms[j - 1]);
                        lemma_text_lt_transitive(old_ms[i].0@, k, old_ms[j - 1].0@);
                    } else if i == p {
                        assert(new_ms[j] == old_ms[j - 1]);
                    } else if i > p {
                        assert(new_ms[i] == old_ms[i - 1]);
                        assert(new_ms[j] == old_ms[j - 1]);
                    }
                }
                lemma_lookup_sorted(new_ms, k);
                assert forall|kk: Seq<char>| kk != k implies lookup(new_ms, kk) == lookup(
                    old_ms,
                    kk,
                ) by {
                    lemma_lookup_sorted(new_ms, kk);
                    lemma_lookup_sorted(old_ms, kk);
                    if exists|i: int| 0 <= i < old_ms.len() && (#[trigger] old_ms[i]).0@ == kk {
                        let i = choose|i: int| 0 <= i < old_ms.len() && (#[trigger] old_ms[i]).0@ == kk;
                        if i < p {
                            assert(new_ms[i] == old_ms[i]);
                        } else {
                            assert(new_ms[i + 1] == old_ms[i]);
                        }
                    } else {
                        assert forall|i: int| 0 <= i < new_ms.len() implies (#[trigger] new_ms[i]).0@
                            != kk by {
                            if i < p {
                                assert(new_ms[i] == old_ms[i]);
                            } else if i > p {
                                assert(new_ms[i] == old_ms[i - 1]);
                            }
                        }
                    }
                }
            }
        }
        self.members = ms;
    }
}

} // verus!
