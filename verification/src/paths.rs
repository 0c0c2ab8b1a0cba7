//! The path values of a document: one `path=value` line per scalar member,
//! the path naming the member through the nested objects that hold it.

use vstd::prelude::*;
use vstd::string::StringExecFns;
use crate::json::{JsonObject, JsonValue};

verus! {

/// The path of member `key` below the path `prefix`: `prefix.key`, or
/// `key` alone at the top.
pub open spec fn qualify(prefix: Seq<char>, key: Seq<char>) -> Seq<char> {
    if prefix.len() == 0 {
        key
    } else {
        prefix + "."@ + key
    }
}

/// The JSON text of a scalar: `null`, `true`, `false`, the number's text,
/// and a string's own characters (unquoted).
pub open spec fn scalar_text(v: JsonValue) -> Seq<char> {
    match v {
        JsonValue::Null => "null"@,
        JsonValue::Bool(b) => if b {
            "true"@
        } else {
            "false"@
        },
        JsonValue::Number(t) => t@,
        JsonValue::Str(s) => s@,
        _ => Seq::empty(),
    }
}

/// The path values of the members `es` below `prefix`, in member order:
/// arrays are left out, objects contribute the path values of their own
/// members, scalars one `path=text` line each.
pub open spec fn path_values_of_entries(es: Seq<(String, JsonValue)>, prefix: Seq<char>) -> Seq<Seq<char>>
    decreases es,
{
    if es.len() == 0 {
        seq![]
    } else {
        path_values_of_entry(es[0], prefix) + path_values_of_entries(es.drop_first(), prefix)
    }
}

/// The path values that one member contributes.
pub open spec fn path_values_of_entry(e: (String, JsonValue), prefix: Seq<char>) -> Seq<Seq<char>>
    decreases e,
{
    match e.1 {
        JsonValue::Array(_) => seq![],
        JsonValue::Object(o) => path_values_of_entries(o.entries@, qualify(prefix, e.0@)),
        v => seq![qualify(prefix, e.0@) + "="@ + scalar_text(v)],
    }
}

/// The views of a vector of strings.
pub open spec fn string_views(v: Seq<String>) -> Seq<Seq<char>> {
    v.map_values(|s: String| s@)
}

/// `prefix.key`, or `key` when `prefix` is empty.
fn qualified(prefix: &String, key: &String) -> (r: String)
    ensures
        r@ == qualify(prefix@, key@),
{
    if prefix.as_str().is_empty() {
        key.clone()
    } else {
        let mut r = prefix.clone();
        r.append(".");
        r.append(key.as_str());
        r
    }
}

/// The text of a scalar value.
fn scalar_string(v: &JsonValue) -> (r: String)
    ensures
        r@ == scalar_text(*v),
{
    match v {
        JsonValue::Null => String::from_str("null"),
        JsonValue::Bool(b) => if *b {
            String::from_str("true")
        } else {
            String::from_str("false")
        },
        JsonValue::Number(t) => t.clone(),
        JsonValue::Str(s) => s.clone(),
        _ => String::new(),
    }
}

/// Appends the path values of `doc` below `prefix` to `out`.
fn collect_path_values(doc: &JsonObject, prefix: &String, out: &mut Vec<String>)
    ensures
        string_views(final(out)@) == string_views(old(out)@) + path_values_of_entries(doc.entries@, prefix@),
    decreases doc,
{
    let n = doc.entries.len();
    let mut i: usize = 0;
    let ghost start = out@;
    assert(doc.entries@.subrange(0, 0) =~= Seq::<(String, JsonValue)>::empty());
    while i < n
        invariant
            n == doc.entries@.len(),
            i <= n,
            string_views(out@) == string_views(start) + path_values_of_entries(doc.entries@.subrange(0, i as int), prefix@),
        decreases n - i,
    {
        let entry = &doc.entries[i];
        let ghost before = out@;
        proof {
            lemma_path_values_split(doc.entries@.subrange(0, i as int), doc.entries@[i as int], prefix@);
            assert(doc.entries@.subrange(0, i as int).push(doc.entries@[i as int]) =~= doc.entries@.subrange(0, i + 1));
        }
        match &entry.1 {
            JsonValue::Array(_) => {
                assert(path_values_of_entry(*entry, prefix@) =~= Seq::<Seq<char>>::empty());
                assert(string_views(out@) =~= string_views(before) + path_values_of_entry(*entry, prefix@));
            },
            JsonValue::Object(o) => {
                let p = qualified(prefix, &entry.0);
                assert(decreases_to!(doc => doc.entries));
                assert(decreases_to!(doc.entries => doc.entries@));
                assert(decreases_to!(doc.entries@ => doc.entries@[i as int]));
                assert(decreases_to!(doc.entries@[i as int] => doc.entries@[i as int].1));
                collect_path_values(o, &p, out);
            },
            v => {
                let mut line = qualified(prefix, &entry.0);
                line.append("=");
                let t = scalar_string(v);
                line.append(t.as_str());
                out.push(line);
                proof {
                    assert(path_values_of_entry(*entry, prefix@) =~= seq![line@]);
                    assert(string_views(out@) =~= string_views(before) + seq![line@]);
                }
            },
        }
        proof {
            assert(string_views(start) + path_values_of_entries(doc.entries@.subrange(0, i as int), prefix@) + path_values_of_entry(doc.entries@[i as int], prefix@)
                =~= string_views(start) + (path_values_of_entries(doc.entries@.subrange(0, i as int), prefix@) + path_values_of_entry(doc.entries@[i as int], prefix@)));
        }
        i = i + 1;
    }
    assert(doc.entries@.subrange(0, n as int) =~= doc.entries@);
}

/// Path values distribute over appending one member.
pub proof fn lemma_path_values_split(es: Seq<(String, JsonValue)>, e: (String, JsonValue), prefix: Seq<char>)
    ensures
        path_values_of_entries(es.push(e), prefix) == path_values_of_entries(es, prefix) + path_values_of_entry(e, prefix),
    decreases es.len(),
{
    if es.len() == 0 {
        assert(es.push(e).drop_first() =~= es);
        assert(path_values_of_entries(es, prefix) =~= Seq::<Seq<char>>::empty());
        assert(path_values_of_entries(es.push(e), prefix) =~= path_values_of_entry(e, prefix));
    } else {
        assert(es.push(e).drop_first() =~= es.drop_first().push(e));
        lemma_path_values_split(es.drop_first(), e, prefix);
        assert(es.push(e)[0] == es[0]);
        assert(path_values_of_entries(es.push(e), prefix) =~= path_values_of_entry(es[0], prefix) + (path_values_of_entries(es.drop_first(), prefix) + path_values_of_entry(e, prefix)));
    }
}

/// The path values of `document` below `prefix`: one `path=value` line for
/// each scalar member, found through nested objects, arrays left out.
pub fn get_path_values(document: &JsonObject, prefix: String) -> (r: Vec<String>)
    ensures
        string_views(r@) == path_values_of_entries(document.entries@, prefix@),
{
    let mut pv: Vec<String> = Vec::new();
    assert(string_views(pv@) =~= Seq::<Seq<char>>::empty());
    collect_path_values(document, &prefix, &mut pv);
    assert(string_views(pv@) =~= path_values_of_entries(document.entries@, prefix@));
    pv
}

/// Each path value of `vs` with `p.` in front of it.
pub open spec fn prefixed(p: Seq<char>, vs: Seq<Seq<char>>) -> Seq<Seq<char>> {
    vs.map_values(|v: Seq<char>| p + "."@ + v)
}

proof fn lemma_prefixed_concat(p: Seq<char>, a: Seq<Seq<char>>, b: Seq<Seq<char>>)
    ensures
        prefixed(p, a + b) == prefixed(p, a) + prefixed(p, b),
{
    assert(prefixed(p, a + b) =~= prefixed(p, a) + prefixed(p, b));
}

/// Below `p.x`, with `x` non-empty, the path values are those below `x` with
/// `p.` in front.
proof fn lemma_prefix_nested_entries(es: Seq<(String, JsonValue)>, p: Seq<char>, x: Seq<char>)
    requires
        x.len() > 0,
    ensures
        path_values_of_entries(es, p + "."@ + x) == prefixed(p, path_values_of_entries(es, x)),
    decreases es,
{
    if es.len() == 0 {
        assert(prefixed(p, Seq::<Seq<char>>::empty()) =~= Seq::<Seq<char>>::empty());
    } else {
        lemma_prefix_nested_entry(es[0], p, x);
        lemma_prefix_nested_entries(es.drop_first(), p, x);
        lemma_prefixed_concat(p, path_values_of_entry(es[0], x), path_values_of_entries(es.drop_first(), x));
    }
}

proof fn lemma_prefix_nested_entry(e: (String, JsonValue), p: Seq<char>, x: Seq<char>)
    requires
        x.len() > 0,
    ensures
        path_values_of_entry(e, p + "."@ + x) == prefixed(p, path_values_of_entry(e, x)),
    decreases e,
{
    let px = p + "."@ + x;
    assert(qualify(px, e.0@) =~= p + "."@ + qualify(x, e.0@));
    match e.1 {
        JsonValue::Array(_) => {
            assert(prefixed(p, Seq::<Seq<char>>::empty()) =~= Seq::<Seq<char>>::empty());
        },
        JsonValue::Object(o) => {
            lemma_prefix_nested_entries(o.entries@, p, qualify(x, e.0@));
        },
        v => {
            let line = qualify(x, e.0@) + "="@ + scalar_text(v);
            assert(qualify(px, e.0@) + "="@ + scalar_text(v) =~= p + "."@ + line);
            assert(prefixed(p, seq![line]) =~= seq![p + "."@ + line]);
        },
    }
}

/// Below a non-empty prefix `p` the path values of a document are its path
/// values below no prefix, in the same order, each with `p.` in front;
/// this holds whenever no top-level member whose value is an object has the
/// empty name.
pub proof fn law_path_values_prefix(document: JsonObject, p: Seq<char>)
    requires
        p.len() > 0,
        forall|i: int|
            0 <= i < document.entries@.len() && (#[trigger] document.entries@[i]).1 is Object
                ==> document.entries@[i].0@.len() > 0,
    ensures
        path_values_of_entries(document.entries@, p) == prefixed(
            p,
            path_values_of_entries(document.entries@, Seq::empty()),
        ),
{
    lemma_prefix_top(document.entries@, p);
}

proof fn lemma_prefix_top(es: Seq<(String, JsonValue)>, p: Seq<char>)
    requires
        p.len() > 0,
        forall|i: int| 0 <= i < es.len() && (#[trigger] es[i]).1 is Object ==> es[i].0@.len() > 0,
    ensures
        path_values_of_entries(es, p) == prefixed(p, path_values_of_entries(es, Seq::empty())),
    decreases es.len(),
{
    if es.len() == 0 {
        assert(prefixed(p, Seq::<Seq<char>>::empty()) =~= Seq::<Seq<char>>::empty());
    } else {
        let e = es[0];
        let rest = es.drop_first();
        assert forall|i: int| 0 <= i < rest.len() && (#[trigger] rest[i]).1 is Object implies rest[i].0@.len() > 0 by {
            assert(rest[i] == es[i + 1]);
        }
        lemma_prefix_top(rest, p);
        lemma_prefixed_concat(p, path_values_of_entry(e, Seq::empty()), path_values_of_entries(rest, Seq::empty()));
        assert(qualify(Seq::empty(), e.0@) == e.0@);
        assert(qualify(p, e.0@) == p + "."@ + e.0@);
        match e.1 {
            JsonValue::Array(_) => {
                assert(prefixed(p, Seq::<Seq<char>>::empty()) =~= Seq::<Seq<char>>::empty());
            },
            JsonValue::Object(o) => {
                assert(e.0@.len() > 0);
                lemma_prefix_nested_entries(o.entries@, p, e.0@);
                assert(path_values_of_entry(e, p) == prefixed(p, path_values_of_entry(e, Seq::empty())));
            },
            v => {
                let line = e.0@ + "="@ + scalar_text(v);
                assert(path_values_of_entry(e, Seq::empty()) == seq![line]);
                assert(p + "."@ + e.0@ + "="@ + scalar_text(v) =~= p + "."@ + line);
                assert(prefixed(p, seq![line]) =~= seq![p + "."@ + line]);
            },
        }
    }
}

} // verus!
