//! Whether a document satisfies one comparison of a query.

use vstd::prelude::*;
use crate::json::{find_entry, JsonObject, JsonValue};
use crate::lexer::{QueryComparison, QueryOp};
use crate::text::str_eq;

verus! {

/// How a number read from the document compares with the number read from
/// the query: below, equal, above, or not comparable (a NaN on either side).
#[derive(PartialEq, Eq, Structural, Debug, Copy, Clone)]
pub enum NumOrder {
    Less,
    Equal,
    Greater,
    Unordered,
}

/// The member `key` of `v`, when `v` is an object.
pub open spec fn value_get(v: JsonValue, key: Seq<char>) -> Option<JsonValue> {
    match v {
        JsonValue::Object(o) => o.spec_get(key),
        _ => None,
    }
}

/// Following the key path from `current`: each key is looked up in the
/// current value, and while that value is null, in the document itself.
pub open spec fn resolve_from(doc: JsonObject, keys: Seq<Seq<char>>, current: JsonValue) -> Option<JsonValue>
    decreases keys.len(),
{
    if keys.len() == 0 {
        Some(current)
    } else {
        let next = if current is Null {
            doc.spec_get(keys[0])
        } else {
            value_get(current, keys[0])
        };
        match next {
            None => None,
            Some(v) => resolve_from(doc, keys.drop_first(), v),
        }
    }
}

/// The value that a key path selects in a document, unless it is missing
/// or null.
pub open spec fn lookup_spec(doc: JsonObject, keys: Seq<Seq<char>>) -> Option<JsonValue> {
    match resolve_from(doc, keys, JsonValue::Null) {
        Some(JsonValue::Null) => None,
        r => r,
    }
}

/// Whether the comparison `op value` on `keys` holds of `doc`, given how the
/// numbers read on both sides compare (`numeric`, `None` when either side
/// reads as no number). A number is compared numerically; a string is
/// compared for equality by its characters, and for `<` and `>` numerically;
/// any other value, a missing one and null never match.
pub open spec fn matches_spec(
    keys: Seq<Seq<char>>,
    value: Seq<char>,
    op: QueryOp,
    doc: JsonObject,
    numeric: Option<NumOrder>,
) -> bool {
    match lookup_spec(doc, keys) {
        None => false,
        Some(v) => match op {
            QueryOp::Equal => match v {
                JsonValue::Number(_) => numeric == Some(NumOrder::Equal),
                JsonValue::Str(s) => s@ == value,
                _ => false,
            },
            QueryOp::Greater => match v {
                JsonValue::Number(_) => numeric == Some(NumOrder::Greater),
                JsonValue::Str(_) => numeric == Some(NumOrder::Greater),
                _ => false,
            },
            QueryOp::Less => match v {
                JsonValue::Number(_) => numeric == Some(NumOrder::Less),
                JsonValue::Str(_) => numeric == Some(NumOrder::Less),
                _ => false,
            },
        },
    }
}

impl<'a> QueryComparison<'a> {
    /// The value at this comparison's key path in `document`, unless it is
    /// missing or null.
    pub fn lookup<'d>(&self, document: &'d JsonObject) -> (r: Option<&'d JsonValue>)
        ensures
            r matches Some(v) ==> lookup_spec(*document, self.key_view()) == Some(*v),
            r is None ==> lookup_spec(*document, self.key_view()) is None,
    {
        let n = self.key.len();
        let mut current: Option<&'d JsonValue> = None;
        let mut i: usize = 0;
        assert(self.key_view().skip(0) =~= self.key_view());
        while i < n
            invariant
                n == self.key@.len(),
                i <= n,
                resolve_from(*document, self.key_view(), JsonValue::Null) == resolve_from(
                    *document,
                    self.key_view().skip(i as int),
                    match current {
                        Some(v) => *v,
                        None => JsonValue::Null,
                    },
                ),
            decreases n - i,
        {
            let key: &str = self.key[i];
            let ghost cur = match current {
                Some(v) => *v,
                None => JsonValue::Null,
            };
            let ghost rest = self.key_view().skip(i as int);
            assert(rest[0] == key@);
            assert(rest.drop_first() =~= self.key_view().skip(i + 1));
            let is_null = match current {
                None => true,
                Some(JsonValue::Null) => true,
                Some(_) => false,
            };
            let next = if is_null {
                document.get(key)
            } else {
                match current {
                    Some(JsonValue::Object(o)) => o.get(key),
                    _ => None,
                }
            };
            match next {
                None => {
                    return None;
                },
                Some(v) => {
                    current = Some(v);
                },
            }
            i = i + 1;
        }
        match current {
            None => None,
            Some(JsonValue::Null) => None,
            Some(v) => Some(v),
        }
    }

    /// Whether `document` satisfies this comparison. `numeric` is how the
    /// number read from the value at the key path compares with the number
    /// read from this comparison's value, `None` when either reads as no
    /// number; it is needed only where that value is a number or is a string
    /// compared by `<` or `>`.
    pub fn matches_document(&self, document: &JsonObject, numeric: Option<NumOrder>) -> (r: bool)
        requires
            lookup_spec(*document, self.key_view()) matches Some(JsonValue::Number(_)) ==> numeric is Some,
        ensures
            r == matches_spec(self.key_view(), self.value@, self.op, *document, numeric),
    {
        match self.lookup(document) {
            None => false,
            Some(v) => match self.op {
                QueryOp::Equal => match v {
                    JsonValue::Number(_) => numeric == Some(NumOrder::Equal),
                    JsonValue::Str(s) => str_eq(s.as_str(), self.value),
                    _ => false,
                },
                QueryOp::Greater => match v {
                    JsonValue::Number(_) => numeric == Some(NumOrder::Greater),
                    JsonValue::Str(_) => numeric == Some(NumOrder::Greater),
                    _ => false,
                },
                QueryOp::Less => match v {
                    JsonValue::Number(_) => numeric == Some(NumOrder::Less),
                    JsonValue::Str(_) => numeric == Some(NumOrder::Less),
                    _ => false,
                },
            },
        }
    }
}

} // verus!

verus! {

/// The keys joined by dots, as `join(".")` gives them.
pub open spec fn join_dots(keys: Seq<Seq<char>>) -> Seq<char>
    decreases keys.len(),
{
    if keys.len() == 0 {
        Seq::empty()
    } else if keys.len() == 1 {
        keys[0]
    } else {
        join_dots(keys.drop_last()) + "."@ + keys.last()
    }
}

/// The index key of an equality term: the key path joined by dots, `=`,
/// and the value, the form in which path values are indexed.
pub open spec fn index_key_spec(keys: Seq<Seq<char>>, value: Seq<char>) -> Seq<char> {
    join_dots(keys) + "="@ + value
}

impl<'a> QueryComparison<'a> {
    /// The index entry that this term looks up: `key.join(".")`, `=`, value.
    pub fn index_key(&self) -> (r: String)
        ensures
            r@ == index_key_spec(self.key_view(), self.value@),
    {
        let n = self.key.len();
        let mut r = String::new();
        let mut i: usize = 0;
        assert(self.key_view().take(0) =~= Seq::<Seq<char>>::empty());
        while i < n
            invariant
                n == self.key@.len(),
                i <= n,
                r@ == join_dots(self.key_view().take(i as int)),
            decreases n - i,
        {
            let ghost before = self.key_view().take(i as int);
            if i > 0 {
                r.append(".");
            }
            r.append(self.key[i]);
            proof {
                let after = self.key_view().take(i + 1);
                assert(after.drop_last() =~= before);
                assert(after.last() == self.key[i as int]@);
                if i == 0 {
                    assert(r@ =~= after[0]);
                }
            }
            i = i + 1;
        }
        assert(self.key_view().take(n as int) =~= self.key_view());
        r.append("=");
        r.append(self.value);
        r
    }
}

/// The value that the key path selects by members of nested objects alone.
pub open spec fn plain_path(o: JsonObject, keys: Seq<Seq<char>>) -> Option<JsonValue>
    decreases keys.len(),
{
    if keys.len() == 0 {
        None
    } else {
        match o.spec_get(keys[0]) {
            None => None,
            Some(v) => if keys.len() == 1 {
                Some(v)
            } else {
                match v {
                    JsonValue::Object(inner) => plain_path(inner, keys.drop_first()),
                    _ => None,
                }
            },
        }
    }
}

/// The path that `keys` names below `prefix`, built as path values build it.
pub open spec fn join_under(prefix: Seq<char>, keys: Seq<Seq<char>>) -> Seq<char>
    decreases keys.len(),
{
    if keys.len() == 0 {
        prefix
    } else {
        join_under(crate::paths::qualify(prefix, keys[0]), keys.drop_first())
    }
}

proof fn lemma_find_entry_some(es: Seq<(String, JsonValue)>, key: Seq<char>)
    requires
        find_entry_is_some(es, key),
    ensures
        exists|i: int| 0 <= i < es.len() && es[i].0@ == key && Some(es[i].1) == crate::json::find_entry(es, key),
    decreases es.len(),
{
    if es[0].0@ != key {
        lemma_find_entry_some(es.drop_first(), key);
        let i = choose|i: int| 0 <= i < es.drop_first().len() && es.drop_first()[i].0@ == key
            && Some(es.drop_first()[i].1) == crate::json::find_entry(es.drop_first(), key);
        assert(es[i + 1] == es.drop_first()[i]);
    } else {
        assert(es[0].0@ == key);
    }
}

/// A member named `key` exists.
pub open spec fn find_entry_is_some(es: Seq<(String, JsonValue)>, key: Seq<char>) -> bool {
    crate::json::find_entry(es, key) is Some
}

proof fn lemma_path_values_member(es: Seq<(String, JsonValue)>, i: int, prefix: Seq<char>, x: Seq<char>)
    requires
        0 <= i < es.len(),
        crate::paths::path_values_of_entry(es[i], prefix).contains(x),
    ensures
        crate::paths::path_values_of_entries(es, prefix).contains(x),
    decreases es.len(),
{
    let head = crate::paths::path_values_of_entry(es[0], prefix);
    let tail = crate::paths::path_values_of_entries(es.drop_first(), prefix);
    assert(crate::paths::path_values_of_entries(es, prefix) == head + tail);
    if i == 0 {
        let j = choose|j: int| 0 <= j < head.len() && head[j] == x;
        assert((head + tail)[j] == x);
    } else {
        assert(es.drop_first()[i - 1] == es[i]);
        lemma_path_values_member(es.drop_first(), i - 1, prefix, x);
        let j = choose|j: int| 0 <= j < tail.len() && tail[j] == x;
        assert((head + tail)[head.len() + j] == x);
    }
}

proof fn lemma_plain_path_value_indexed(o: JsonObject, prefix: Seq<char>, keys: Seq<Seq<char>>, v: JsonValue)
    requires
        keys.len() >= 1,
        v is Str || v is Number,
        plain_path(o, keys) == Some(v),
    ensures
        crate::paths::path_values_of_entries(o.entries@, prefix).contains(
            join_under(prefix, keys) + "="@ + crate::paths::scalar_text(v),
        ),
    decreases keys.len(),
{
    let es = o.entries@;
    let k0 = keys[0];
    lemma_find_entry_some(es, k0);
    let i = choose|i: int| 0 <= i < es.len() && es[i].0@ == k0 && Some(es[i].1) == crate::json::find_entry(es, k0);
    let q = crate::paths::qualify(prefix, k0);
    if keys.len() == 1 {
        assert(keys.drop_first() =~= Seq::<Seq<char>>::empty());
        assert(join_under(q, keys.drop_first()) == q);
        assert(join_under(prefix, keys) == q);
        let line = q + "="@ + crate::paths::scalar_text(v);
        assert(crate::paths::path_values_of_entry(es[i], prefix) == seq![line]);
        assert(seq![line][0] == line);
        lemma_path_values_member(es, i, prefix, line);
    } else {
        let rest = keys.drop_first();
        match es[i].1 {
            JsonValue::Object(inner) => {
                lemma_plain_path_value_indexed(inner, q, rest, v);
                assert(join_under(prefix, keys) == join_under(q, rest));
                lemma_path_values_member(es, i, prefix, join_under(q, rest) + "="@ + crate::paths::scalar_text(v));
            },
            _ => {},
        }
    }
}

proof fn lemma_join_dots_front(k0: Seq<char>, rest: Seq<Seq<char>>)
    requires
        rest.len() >= 1,
    ensures
        join_dots(seq![k0] + rest) == k0 + "."@ + join_dots(rest),
    decreases rest.len(),
{
    let all = seq![k0] + rest;
    assert(all.drop_last() =~= seq![k0] + rest.drop_last());
    assert(all.last() == rest.last());
    if rest.len() == 1 {
        assert(seq![k0] + rest.drop_last() =~= seq![k0]);
        assert(join_dots(seq![k0]) == k0);
        assert(join_dots(rest) == rest[0]);
    } else {
        lemma_join_dots_front(k0, rest.drop_last());
        assert(k0 + "."@ + join_dots(rest.drop_last()) + "."@ + rest.last() =~= k0 + "."@ + (join_dots(rest.drop_last()) + "."@ + rest.last()));
    }
}

proof fn lemma_join_under_nonempty(prefix: Seq<char>, keys: Seq<Seq<char>>)
    requires
        prefix.len() > 0,
    ensures
        join_under(prefix, keys) == if keys.len() == 0 {
            prefix
        } else {
            prefix + "."@ + join_dots(keys)
        },
    decreases keys.len(),
{
    if keys.len() > 0 {
        let q = prefix + "."@ + keys[0];
        assert(crate::paths::qualify(prefix, keys[0]) == q);
        let rest = keys.drop_first();
        lemma_join_under_nonempty(q, rest);
        if rest.len() == 0 {
            assert(keys =~= seq![keys[0]]);
            assert(join_dots(keys) == keys[0]);
        } else {
            assert(keys =~= seq![keys[0]] + rest);
            lemma_join_dots_front(keys[0], rest);
            assert(q + "."@ + join_dots(rest) =~= prefix + "."@ + (keys[0] + "."@ + join_dots(rest)));
        }
    }
}

proof fn lemma_resolve_plain(doc: JsonObject, o: JsonObject, keys: Seq<Seq<char>>, v: JsonValue)
    requires
        keys.len() >= 1,
        plain_path(o, keys) == Some(v),
    ensures
        resolve_from(doc, keys, JsonValue::Object(o)) == Some(v),
    decreases keys.len(),
{
    let rest = keys.drop_first();
    let v0 = o.spec_get(keys[0])->0;
    assert(value_get(JsonValue::Object(o), keys[0]) == Some(v0));
    assert(resolve_from(doc, keys, JsonValue::Object(o)) == resolve_from(doc, rest, v0));
    if keys.len() > 1 {
        match v0 {
            JsonValue::Object(inner) => {
                lemma_resolve_plain(doc, inner, rest, v);
            },
            _ => {},
        }
    } else {
        assert(rest.len() == 0);
        assert(v0 == v);
    }
}

/// A document in which an equality term's key path runs through nested
/// objects to a string or a number whose text is the term's value has the
/// term's index key among its path values: indexing the document's path
/// values and looking a term up by its index key agree. A string there
/// satisfies the term; a number satisfies it exactly when the two numbers
/// compare equal. The first key must not be empty (an empty first member
/// name is left out of nested paths).
pub proof fn law_equality_term_indexed(
    doc: JsonObject,
    keys: Seq<Seq<char>>,
    value: Seq<char>,
    numeric: Option<NumOrder>,
)
    requires
        keys.len() >= 1,
        keys[0].len() > 0,
        plain_path(doc, keys) matches Some(v) && (v is Str || v is Number)
            && crate::paths::scalar_text(v) == value,
    ensures
        crate::paths::path_values_of_entries(doc.entries@, Seq::empty()).contains(index_key_spec(keys, value)),
        plain_path(doc, keys) matches Some(JsonValue::Str(_)) ==> matches_spec(keys, value, QueryOp::Equal, doc, numeric),
        plain_path(doc, keys) matches Some(JsonValue::Number(_)) ==> (matches_spec(keys, value, QueryOp::Equal, doc, numeric)
            <==> numeric == Some(NumOrder::Equal)),
{
    let s = plain_path(doc, keys)->0;
    let rest = keys.drop_first();
    // the path values hold the index key
    lemma_plain_path_value_indexed(doc, Seq::empty(), keys, s);
    let k0 = keys[0];
    assert(crate::paths::qualify(Seq::empty(), k0) == k0);
    assert(join_under(Seq::empty(), keys) == join_under(k0, rest));
    lemma_join_under_nonempty(k0, rest);
    if rest.len() == 0 {
        assert(join_dots(keys) == k0);
    } else {
        assert(keys =~= seq![k0] + rest);
        lemma_join_dots_front(k0, rest);
    }
    assert(join_under(Seq::empty(), keys) == join_dots(keys));
    // the term holds
    let v0 = doc.spec_get(k0)->0;
    assert(resolve_from(doc, keys, JsonValue::Null) == resolve_from(doc, rest, v0));
    match doc.spec_get(k0) {
        Some(v0) => {
            if keys.len() > 1 {
                match v0 {
                    JsonValue::Object(inner) => {
                        lemma_resolve_plain(doc, inner, rest, s);
                    },
                    _ => {},
                }
            } else {
                assert(rest =~= Seq::<Seq<char>>::empty());
                assert(resolve_from(doc, rest, v0) == Some(v0));
            }
        },
        None => {},
    }
    assert(resolve_from(doc, keys, JsonValue::Null) == Some(s));
}

} // verus!

verus! {

/// Whether a term compares by `<` or `>`.
pub open spec fn is_range_term(m: crate::parser::ComparisonModel) -> bool {
    m.op != QueryOp::Equal
}

/// The terms of a query that compare by `<` or `>`, in order.
pub fn range_terms<'b, 'a>(comps: &'b Vec<QueryComparison<'a>>) -> (r: Vec<&'b QueryComparison<'a>>)
    ensures
        r@.map_values(|c: &QueryComparison<'a>| c.model()) == crate::parser::comparisons_model(comps@).filter(
            |m: crate::parser::ComparisonModel| is_range_term(m),
        ),
{
    let n = comps.len();
    let mut r: Vec<&'b QueryComparison<'a>> = Vec::new();
    let mut i: usize = 0;
    let ghost all = crate::parser::comparisons_model(comps@);
    let ghost pred = |m: crate::parser::ComparisonModel| is_range_term(m);
    assert(all.take(0) =~= Seq::<crate::parser::ComparisonModel>::empty());
    assert(all.take(0).filter(pred) =~= Seq::<crate::parser::ComparisonModel>::empty()) by {
        reveal(Seq::filter);
    }
    assert(r@.map_values(|c: &QueryComparison<'a>| c.model()) =~= Seq::<crate::parser::ComparisonModel>::empty());
    while i < n
        invariant
            n == comps@.len(),
            all == crate::parser::comparisons_model(comps@),
            pred == (|m: crate::parser::ComparisonModel| is_range_term(m)),
            i <= n,
            r@.map_values(|c: &QueryComparison<'a>| c.model()) == all.take(i as int).filter(pred),
        decreases n - i,
    {
        let c = &comps[i];
        proof {
            assert(all.take(i + 1) =~= all.take(i as int).push(all[i as int]));
            assert(all[i as int] == c.model());
            all.take(i as int).lemma_filter_push(all[i as int], pred);
        }
        let ghost before = r@;
        if c.op != QueryOp::Equal {
            r.push(c);
            assert(r@.map_values(|c: &QueryComparison<'a>| c.model()) =~= before.map_values(|c: &QueryComparison<'a>| c.model()).push(c.model()));
        }
        i = i + 1;
    }
    assert(all.take(n as int) =~= all);
    r
}

} // verus!

verus! {

/// The terms of a query that compare for equality, in order.
pub open spec fn equality_terms(cs: Seq<crate::parser::ComparisonModel>) -> Seq<crate::parser::ComparisonModel> {
    cs.filter(|m: crate::parser::ComparisonModel| !is_range_term(m))
}

/// The index keys that a query looks up: one for each equality term, in order.
pub fn equality_index_keys<'a>(comps: &Vec<QueryComparison<'a>>) -> (r: Vec<String>)
    ensures
        r@.len() == equality_terms(crate::parser::comparisons_model(comps@)).len(),
        forall|i: int|
            0 <= i < r@.len() ==> (#[trigger] r@[i])@ == index_key_spec(
                equality_terms(crate::parser::comparisons_model(comps@))[i].key,
                equality_terms(crate::parser::comparisons_model(comps@))[i].value,
            ),
{
    let n = comps.len();
    let mut r: Vec<String> = Vec::new();
    let mut i: usize = 0;
    let ghost all = crate::parser::comparisons_model(comps@);
    let ghost pred = |m: crate::parser::ComparisonModel| !is_range_term(m);
    assert(all.take(0) =~= Seq::<crate::parser::ComparisonModel>::empty());
    assert(all.take(0).filter(pred) =~= Seq::<crate::parser::ComparisonModel>::empty()) by {
        reveal(Seq::filter);
    }
    while i < n
        invariant
            n == comps@.len(),
            all == crate::parser::comparisons_model(comps@),
            pred == (|m: crate::parser::ComparisonModel| !is_range_term(m)),
            i <= n,
            r@.len() == all.take(i as int).filter(pred).len(),
            forall|j: int|
                0 <= j < r@.len() ==> (#[trigger] r@[j])@ == index_key_spec(
                    all.take(i as int).filter(pred)[j].key,
                    all.take(i as int).filter(pred)[j].value,
                ),
        decreases n - i,
    {
        let c = &comps[i];
        let ghost before = all.take(i as int).filter(pred);
        proof {
            assert(all.take(i + 1) =~= all.take(i as int).push(all[i as int]));
            assert(all[i as int] == c.model());
            all.take(i as int).lemma_filter_push(all[i as int], pred);
        }
        if c.op == QueryOp::Equal {
            let key = c.index_key();
            r.push(key);
            proof {
                let after = all.take(i + 1).filter(pred);
                assert(after == before.push(c.model()));
                assert forall|j: int| 0 <= j < r@.len() implies (#[trigger] r@[j])@ == index_key_spec(after[j].key, after[j].value) by {
                    if j < before.len() {
                        assert(after[j] == before[j]);
                    }
                }
            }
        }
        i = i + 1;
    }
    assert(all.take(n as int) =~= all);
    r
}

} // verus!

verus! {

/// How a term decides, for every document: where the key path selects a
/// JSON number, or a string that is read as a number, `>` holds exactly when
/// the document's number is the greater (`numeric` is `Greater`) and `<`
/// exactly when it is the smaller; `=` on a number holds exactly when the two
/// numbers are equal, and on a string exactly when it has the term's
/// characters; a missing or null value, or one of any other kind, satisfies
/// no term.
pub proof fn law_term_decisions(
    keys: Seq<Seq<char>>,
    value: Seq<char>,
    doc: JsonObject,
    numeric: Option<NumOrder>,
)
    ensures
        lookup_spec(doc, keys) matches Some(v) && (v is Number || v is Str) ==> {
            &&& matches_spec(keys, value, QueryOp::Greater, doc, numeric) <==> numeric == Some(NumOrder::Greater)
            &&& matches_spec(keys, value, QueryOp::Less, doc, numeric) <==> numeric == Some(NumOrder::Less)
        },
        lookup_spec(doc, keys) matches Some(JsonValue::Number(_)) ==> (matches_spec(
            keys,
            value,
            QueryOp::Equal,
            doc,
            numeric,
        ) <==> numeric == Some(NumOrder::Equal)),
        lookup_spec(doc, keys) matches Some(JsonValue::Str(s)) ==> (matches_spec(
            keys,
            value,
            QueryOp::Equal,
            doc,
            numeric,
        ) <==> s@ == value),
        !(lookup_spec(doc, keys) matches Some(v) && (v is Number || v is Str)) ==> {
            &&& !matches_spec(keys, value, QueryOp::Equal, doc, numeric)
            &&& !matches_spec(keys, value, QueryOp::Greater, doc, numeric)
            &&& !matches_spec(keys, value, QueryOp::Less, doc, numeric)
        },
{
}

} // verus!
