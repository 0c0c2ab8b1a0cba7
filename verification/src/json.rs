//! The document model: a JSON object as a list of members whose names are
//! unique and ascending, each with a JSON value.

use vstd::prelude::*;
use vstd::string::StringExecFns;
use crate::text::{key_lt, lemma_key_lt_strict_total, lemma_key_lt_transitive, str_eq, str_lt};

verus! {

/// A JSON value. A number is held as the JSON text that denotes it.
#[derive(Debug)]
pub enum JsonValue {
    Null,
    Bool(bool),
    Number(String),
    Str(String),
    Array(Vec<JsonValue>),
    Object(JsonObject),
}

/// A JSON object: its members in ascending order of their names.
#[derive(Debug)]
pub struct JsonObject {
    pub entries: Vec<(String, JsonValue)>,
}

/// The value of the first member of `es` named `key`.
pub open spec fn find_entry(es: Seq<(String, JsonValue)>, key: Seq<char>) -> Option<JsonValue>
    decreases es.len(),
{
    if es.len() == 0 {
        None
    } else if es[0].0@ == key {
        Some(es[0].1)
    } else {
        find_entry(es.drop_first(), key)
    }
}

/// The names of the members, in order.
pub open spec fn entry_keys(es: Seq<(String, JsonValue)>) -> Seq<Seq<char>> {
    es.map_values(|e: (String, JsonValue)| e.0@)
}

/// The members are named in strictly ascending order of their names, as
/// `String`s order (which also makes the names unique).
pub open spec fn keys_sorted(es: Seq<(String, JsonValue)>) -> bool {
    forall|i: int, j: int| 0 <= i < j < es.len() ==> key_lt(#[trigger] es[i].0@, #[trigger] es[j].0@)
}

impl JsonObject {
    /// The object's members are named uniquely and kept in ascending order of
    /// their names, as in a JSON map whose members iterate in key order.
    pub open spec fn wf(&self) -> bool {
        keys_sorted(self.entries@)
    }

    /// The value of the member named `key`, if there is one.
    pub open spec fn spec_get(&self, key: Seq<char>) -> Option<JsonValue> {
        find_entry(self.entries@, key)
    }

    /// An object with no members.
    pub fn new() -> (o: JsonObject)
        ensures
            o.entries@.len() == 0,
            o.wf(),
    {
        JsonObject { entries: Vec::new() }
    }

    /// Sets the member `key` to `value`: an existing member keeps its place
    /// and gets the new value, a new one goes where its name falls in the
    /// ascending order of names.
    pub fn insert(&mut self, key: String, value: JsonValue)
        requires
            old(self).wf(),
        ensures
            final(self).wf(),
            final(self).spec_get(key@) == Some(value),
            forall|k: Seq<char>| k != key@ ==> final(self).spec_get(k) == old(self).spec_get(k),
            old(self).spec_get(key@) is Some ==> entry_keys(final(self).entries@) == entry_keys(old(self).entries@),
            old(self).spec_get(key@) is None ==> exists|p: int|
                0 <= p <= old(self).entries@.len()
                && entry_keys(final(self).entries@) == entry_keys(old(self).entries@).insert(p, key@),
    {
        let n = self.entries.len();
        let mut i: usize = 0;
        while i < n && str_lt(self.entries[i].0.as_str(), key.as_str())
            invariant
                n == self.entries@.len(),
                i <= n,
                self.entries@ == old(self).entries@,
                keys_sorted(self.entries@),
                forall|j: int| 0 <= j < i ==> key_lt(#[trigger] self.entries@[j].0@, key@),
            decreases n - i,
        {
            i = i + 1;
        }
        let ghost before = self.entries@;
        proof {
            assert forall|j: int| 0 <= j < i implies #[trigger] before[j].0@ != key@ by {
                lemma_key_lt_strict_total(before[j].0@, key@);
            }
        }
        if i < n && str_eq(self.entries[i].0.as_str(), key.as_str()) {
            proof {
                lemma_find_entry_at(before, key@, i as int);
            }
            let k = self.entries[i].0.clone();
            self.entries.set(i, (k, value));
            proof {
                let after = self.entries@;
                assert(after.len() == before.len());
                assert forall|j: int| 0 <= j < after.len() implies #[trigger] after[j].0@ == before[j].0@ by {}
                assert(entry_keys(after) =~= entry_keys(before));
                assert forall|a: int, b: int| 0 <= a < b < after.len() implies key_lt(#[trigger] after[a].0@, #[trigger] after[b].0@) by {
                    assert(key_lt(before[a].0@, before[b].0@));
                }
                lemma_find_entry_at(after, key@, i as int);
                assert forall|k2: Seq<char>| k2 != key@ implies find_entry(after, k2) == find_entry(before, k2) by {
                    lemma_find_entry_update(before, i as int, (after[i as int].0, value), k2);
                }
            }
            return;
        }
        proof {
            if i < n {
                lemma_key_lt_strict_total(before[i as int].0@, key@);
                assert(key_lt(key@, before[i as int].0@));
                assert forall|j: int| i <= j < n implies key_lt(key@, #[trigger] before[j].0@) by {
                    if j > i {
                        lemma_key_lt_transitive(key@, before[i as int].0@, before[j].0@);
                    }
                }
            }
            assert forall|j: int| 0 <= j < n implies #[trigger] before[j].0@ != key@ by {
                if j >= i {
                    lemma_key_lt_strict_total(key@, before[j].0@);
                }
            }
            lemma_find_entry_absent(before, key@);
        }
        self.entries.insert(i, (key, value));
        proof {
            let after = self.entries@;
            let e = after[i as int];
            assert(after =~= before.insert(i as int, e));
            assert(entry_keys(after) =~= entry_keys(before).insert(i as int, key@));
            assert forall|a: int, b: int| 0 <= a < b < after.len() implies key_lt(#[trigger] after[a].0@, #[trigger] after[b].0@) by {
                if b < i {
                    assert(key_lt(before[a].0@, before[b].0@));
                } else if b == i {
                } else if a < i {
                    assert(key_lt(before[a].0@, key@));
                    assert(key_lt(key@, before[b - 1].0@));
                    lemma_key_lt_transitive(before[a].0@, key@, before[b - 1].0@);
                } else if a == i {
                } else {
                    assert(key_lt(before[a - 1].0@, before[b - 1].0@));
                }
            }
            lemma_find_entry_insert(before, i as int, e, key@);
            assert forall|k2: Seq<char>| k2 != key@ implies find_entry(after, k2) == find_entry(before, k2) by {
                lemma_find_entry_insert(before, i as int, e, k2);
            }
        }
    }

    /// The value of the member named `key`, if there is one.
    pub fn get(&self, key: &str) -> (r: Option<&JsonValue>)
        ensures
            r matches Some(v) ==> self.spec_get(key@) == Some(*v),
            r is None ==> self.spec_get(key@) is None,
    {
        let n = self.entries.len();
        let mut i: usize = 0;
        assert(self.entries@.skip(0) =~= self.entries@);
        while i < n
            invariant
                n == self.entries@.len(),
                i <= n,
                find_entry(self.entries@, key@) == find_entry(self.entries@.skip(i as int), key@),
            decreases n - i,
        {
            let ghost rest = self.entries@.skip(i as int);
            assert(rest.drop_first() =~= self.entries@.skip(i + 1));
            if str_eq(self.entries[i].0.as_str(), key) {
                return Some(&self.entries[i].1);
            }
            i = i + 1;
        }
        None
    }
}

/// The member at `i` is the first one named `key` when no earlier member is.
pub proof fn lemma_find_entry_at(es: Seq<(String, JsonValue)>, key: Seq<char>, i: int)
    requires
        0 <= i < es.len(),
        es[i].0@ == key,
        forall|j: int| 0 <= j < i ==> es[j].0@ != key,
    ensures
        find_entry(es, key) == Some(es[i].1),
    decreases i,
{
    if i > 0 {
        lemma_find_entry_at(es.drop_first(), key, i - 1);
    }
}

/// No member is named `key`.
pub proof fn lemma_find_entry_absent(es: Seq<(String, JsonValue)>, key: Seq<char>)
    requires
        forall|j: int| 0 <= j < es.len() ==> es[j].0@ != key,
    ensures
        find_entry(es, key) is None,
    decreases es.len(),
{
    if es.len() > 0 {
        lemma_find_entry_absent(es.drop_first(), key);
    }
}

proof fn lemma_find_entry_insert(es: Seq<(String, JsonValue)>, i: int, e: (String, JsonValue), key: Seq<char>)
    requires
        0 <= i <= es.len(),
        forall|j: int| 0 <= j < i ==> #[trigger] es[j].0@ != e.0@,
    ensures
        key == e.0@ ==> find_entry(es.insert(i, e), key) == Some(e.1),
        key != e.0@ ==> find_entry(es.insert(i, e), key) == find_entry(es, key),
    decreases i,
{
    let s2 = es.insert(i, e);
    if i == 0 {
        assert(s2[0] == e);
        assert(s2.drop_first() =~= es);
    } else {
        assert(s2[0] == es[0]);
        assert(s2.drop_first() =~= es.drop_first().insert(i - 1, e));
        lemma_find_entry_insert(es.drop_first(), i - 1, e, key);
    }
}

proof fn lemma_find_entry_update(es: Seq<(String, JsonValue)>, i: int, e: (String, JsonValue), key: Seq<char>)
    requires
        0 <= i < es.len(),
        e.0@ == es[i].0@,
        key != e.0@,
    ensures
        find_entry(es.update(i, e), key) == find_entry(es, key),
    decreases es.len(),
{
    if i == 0 {
        assert(es.update(i, e).drop_first() =~= es.drop_first());
    } else {
        assert(es.update(i, e).drop_first() =~= es.drop_first().update(i - 1, e));
        lemma_find_entry_update(es.drop_first(), i - 1, e, key);
    }
}

} // verus!
