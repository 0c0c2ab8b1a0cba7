//! The last step of a search: which of the candidate documents a query
//! returns, given how the numbers compare in each of their terms.

use vstd::prelude::*;
use crate::json::{JsonObject, JsonValue};
use crate::lexer::QueryComparison;
use crate::matching::{lookup_spec, matches_spec, NumOrder};
use crate::parser::ComparisonModel;
use crate::service::DocumentResult;

verus! {

/// The terms as values.
pub open spec fn term_models<'a>(terms: Seq<&QueryComparison<'a>>) -> Seq<ComparisonModel> {
    terms.map_values(|c: &QueryComparison<'a>| c.model())
}

/// The numeric comparison given for term `i`; none where none is given.
pub open spec fn numeric_at(ns: Seq<Option<NumOrder>>, i: int) -> Option<NumOrder> {
    if 0 <= i < ns.len() {
        ns[i]
    } else {
        None
    }
}

/// Evaluating the term stops the search: the value at its key path is a
/// number, and the term's value reads as no number to compare it with.
pub open spec fn term_aborts(m: ComparisonModel, doc: JsonObject, numeric: Option<NumOrder>) -> bool {
    &&& lookup_spec(doc, m.key) matches Some(JsonValue::Number(_))
    &&& numeric is None
}

/// Evaluating the terms from the `i`-th on, in order, stopping at the first
/// that fails (`Some(false)`) or that stops the search (`None`).
pub open spec fn terms_outcome_from(
    ms: Seq<ComparisonModel>,
    doc: JsonObject,
    ns: Seq<Option<NumOrder>>,
    i: nat,
) -> Option<bool>
    decreases ms.len() - i,
{
    if i >= ms.len() {
        Some(true)
    } else if term_aborts(ms[i as int], doc, numeric_at(ns, i as int)) {
        None
    } else if !matches_spec(ms[i as int].key, ms[i as int].value, ms[i as int].op, doc, numeric_at(ns, i as int)) {
        Some(false)
    } else {
        terms_outcome_from(ms, doc, ns, i + 1)
    }
}

/// Whether a document satisfies every term, evaluated in order as `all`
/// evaluates them: `None` where a term met before any failing one stops the
/// search.
pub open spec fn all_terms_outcome(ms: Seq<ComparisonModel>, doc: JsonObject, ns: Seq<Option<NumOrder>>) -> Option<bool> {
    terms_outcome_from(ms, doc, ns, 0)
}

/// Whether `document` satisfies every term of `terms`, the terms taken in
/// order; `numeric[i]` is how the numbers compare in term `i`. `None` when
/// the search stops on a term whose value at its key path is a number while
/// the term's value reads as no number.
pub fn all_terms_hold<'a>(
    terms: &Vec<&QueryComparison<'a>>,
    document: &JsonObject,
    numeric: &Vec<Option<NumOrder>>,
) -> (r: Option<bool>)
    ensures
        r == all_terms_outcome(term_models(terms@), *document, numeric@),
{
    let n = terms.len();
    let ghost ms = term_models(terms@);
    let mut i: usize = 0;
    while i < n
        invariant
            n == terms@.len(),
            ms == term_models(terms@),
            i <= n,
            all_terms_outcome(ms, *document, numeric@) == terms_outcome_from(ms, *document, numeric@, i as nat),
        decreases n - i,
    {
        let t = terms[i];
        let num = if i < numeric.len() {
            numeric[i]
        } else {
            None
        };
        assert(ms[i as int] == t.model());
        assert(num == numeric_at(numeric@, i as int));
        if num.is_none() {
            if let Some(JsonValue::Number(_)) = t.lookup(document) {
                return None;
            }
        }
        if !t.matches_document(document, num) {
            return Some(false);
        }
        i = i + 1;
    }
    Some(true)
}

/// The numeric comparisons given for candidate `i`.
pub open spec fn numerics_at(nss: Seq<Vec<Option<NumOrder>>>, i: int) -> Seq<Option<NumOrder>> {
    if 0 <= i < nss.len() {
        nss[i]@
    } else {
        Seq::empty()
    }
}

/// The documents that a search returns from the candidates, from the `i`-th
/// on: each candidate whose document was found and satisfies every term,
/// as its id and document, in order; `None` where evaluating the terms on
/// any found document stops the search.
pub open spec fn selection_from(
    cands: Seq<(String, Option<JsonObject>)>,
    ms: Seq<ComparisonModel>,
    nss: Seq<Vec<Option<NumOrder>>>,
    i: nat,
) -> Option<Seq<(Seq<char>, JsonObject)>>
    decreases cands.len() - i,
{
    if i >= cands.len() {
        Some(Seq::empty())
    } else {
        let here: Option<Seq<(Seq<char>, JsonObject)>> = match cands[i as int].1 {
            None => Some(Seq::empty()),
            Some(d) => match all_terms_outcome(ms, d, numerics_at(nss, i as int)) {
                None => None,
                Some(b) => Some(
                    if b {
                        seq![(cands[i as int].0@, d)]
                    } else {
                        Seq::empty()
                    },
                ),
            },
        };
        match here {
            None => None,
            Some(h) => match selection_from(cands, ms, nss, i + 1) {
                None => None,
                Some(t) => Some(h + t),
            },
        }
    }
}

/// The documents that a search returns from all the candidates.
pub open spec fn selection(
    cands: Seq<(String, Option<JsonObject>)>,
    ms: Seq<ComparisonModel>,
    nss: Seq<Vec<Option<NumOrder>>>,
) -> Option<Seq<(Seq<char>, JsonObject)>> {
    selection_from(cands, ms, nss, 0)
}

/// The found documents as ids and documents.
pub open spec fn results_view(rs: Seq<DocumentResult>) -> Seq<(Seq<char>, JsonObject)> {
    rs.map_values(|d: DocumentResult| (d.id@, d.body))
}

/// `found` in front of the outcome of the rest.
pub open spec fn in_front(
    found: Seq<(Seq<char>, JsonObject)>,
    rest: Option<Seq<(Seq<char>, JsonObject)>>,
) -> Option<Seq<(Seq<char>, JsonObject)>> {
    match rest {
        None => None,
        Some(t) => Some(found + t),
    }
}

/// The documents that a search returns: of the candidates, each an id with
/// the document stored under it if one was found, those whose document
/// satisfies every term, in the candidates' order; `numeric[i][j]` is how
/// the numbers compare in term `j` on candidate `i`. `None` when evaluating
/// the terms on any found document stops the search.
pub fn select_documents<'a>(
    candidates: Vec<(String, Option<JsonObject>)>,
    terms: &Vec<&QueryComparison<'a>>,
    numeric: &Vec<Vec<Option<NumOrder>>>,
) -> (r: Option<Vec<DocumentResult>>)
    ensures
        r is None <==> selection(candidates@, term_models(terms@), numeric@) is None,
        r matches Some(v) ==> selection(candidates@, term_models(terms@), numeric@) == Some(results_view(v@)),
{
    let ghost orig = candidates@;
    let ghost ms = term_models(terms@);
    let n = candidates.len();
    let mut pending = candidates;
    let mut reversed: Vec<(String, Option<JsonObject>)> = Vec::new();
    while pending.len() > 0
        invariant
            orig == candidates@,
            n == orig.len(),
            pending@.len() + reversed@.len() == n,
            pending@ == orig.take(pending@.len() as int),
            forall|j: int| 0 <= j < reversed@.len() ==> #[trigger] reversed@[j] == orig[n - 1 - j],
        decreases pending@.len(),
    {
        let c = pending.pop().unwrap();
        reversed.push(c);
    }
    let mut results: Vec<DocumentResult> = Vec::new();
    let mut i: usize = 0;
    assert(results_view(results@) =~= Seq::<(Seq<char>, JsonObject)>::empty());
    assert(in_front(Seq::empty(), selection_from(orig, ms, numeric@, 0)) =~= selection_from(orig, ms, numeric@, 0));
    while reversed.len() > 0
        invariant
            orig == candidates@,
            n == orig.len(),
            ms == term_models(terms@),
            reversed@.len() + i == n,
            forall|j: int| 0 <= j < reversed@.len() ==> #[trigger] reversed@[j] == orig[n - 1 - j],
            selection(orig, ms, numeric@) == in_front(results_view(results@), selection_from(orig, ms, numeric@, i as nat)),
        decreases reversed@.len(),
    {
        let (id, found) = reversed.pop().unwrap();
        assert(orig[i as int] == (id, found));
        let ghost before = results_view(results@);
        let ghost mut here: Seq<(Seq<char>, JsonObject)> = Seq::empty();
        match found {
            None => {},
            Some(document) => {
                let no_numbers: Vec<Option<NumOrder>> = Vec::new();
                let nums: &Vec<Option<NumOrder>> = if i < numeric.len() {
                    &numeric[i]
                } else {
                    &no_numbers
                };
                assert(nums@ =~= numerics_at(numeric@, i as int));
                match all_terms_hold(terms, &document, nums) {
                    None => {
                        assert(selection_from(orig, ms, numeric@, i as nat) is None);
                        return None;
                    },
                    Some(true) => {
                        let ghost entry = (id@, document);
                        results.push(DocumentResult { id, body: document });
                        proof {
                            here = seq![entry];
                        }
                    },
                    Some(false) => {},
                }
            },
        }
        proof {
            assert(results_view(results@) =~= before + here);
            match selection_from(orig, ms, numeric@, (i + 1) as nat) {
                None => {},
                Some(t) => {
                    assert(before + (here + t) =~= (before + here) + t);
                },
            }
        }
        i = i + 1;
    }
    assert(selection_from(orig, ms, numeric@, n as nat) == Some(Seq::<(Seq<char>, JsonObject)>::empty()));
    assert(results_view(results@) + Seq::<(Seq<char>, JsonObject)>::empty() =~= results_view(results@));
    Some(results)
}

} // verus!

verus! {

/// Candidate `i` was found and its document satisfies every term.
pub open spec fn satisfied(
    cands: Seq<(String, Option<JsonObject>)>,
    ms: Seq<ComparisonModel>,
    nss: Seq<Vec<Option<NumOrder>>>,
    i: int,
) -> bool {
    cands[i].1 matches Some(d) && all_terms_outcome(ms, d, numerics_at(nss, i)) == Some(true)
}

/// Candidate `i` was found and evaluating the terms on it stops the search.
pub open spec fn stops_search(
    cands: Seq<(String, Option<JsonObject>)>,
    ms: Seq<ComparisonModel>,
    nss: Seq<Vec<Option<NumOrder>>>,
    i: int,
) -> bool {
    cands[i].1 matches Some(d) && all_terms_outcome(ms, d, numerics_at(nss, i)) is None
}

proof fn lemma_selection_from(
    cands: Seq<(String, Option<JsonObject>)>,
    ms: Seq<ComparisonModel>,
    nss: Seq<Vec<Option<NumOrder>>>,
    i: nat,
) -> (idx: Seq<int>)
    requires
        i <= cands.len(),
    ensures
        selection_from(cands, ms, nss, i) is None <==> exists|j: int|
            i <= j < cands.len() && #[trigger] stops_search(cands, ms, nss, j),
        selection_from(cands, ms, nss, i) matches Some(r) ==> {
            &&& idx.len() == r.len()
            &&& forall|k: int|
                0 <= k < idx.len() ==> i <= #[trigger] idx[k] < cands.len() && satisfied(cands, ms, nss, idx[k])
                    && r[k] == (cands[idx[k]].0@, cands[idx[k]].1->0)
            &&& forall|k1: int, k2: int| 0 <= k1 < k2 < idx.len() ==> idx[k1] < idx[k2]
            &&& forall|j: int| i <= j < cands.len() && #[trigger] satisfied(cands, ms, nss, j) ==> idx.contains(j)
        },
    decreases cands.len() - i,
{
    if i == cands.len() {
        Seq::empty()
    } else {
        let rest = lemma_selection_from(cands, ms, nss, i + 1);
        let ii = i as int;
        assert forall|j: int| i < j < cands.len() && #[trigger] stops_search(cands, ms, nss, j) implies (i + 1 <= j < cands.len() && stops_search(cands, ms, nss, j)) by {}
        if stops_search(cands, ms, nss, ii) {
            assert(selection_from(cands, ms, nss, i) is None);
            rest
        } else if satisfied(cands, ms, nss, ii) {
            let d = cands[ii].1->0;
            let idx = seq![ii] + rest;
            match selection_from(cands, ms, nss, i + 1) {
                None => {
                    let j = choose|j: int| i + 1 <= j < cands.len() && #[trigger] stops_search(cands, ms, nss, j);
                    assert(selection_from(cands, ms, nss, i) is None);
                },
                Some(t) => {
                    let r = seq![(cands[ii].0@, d)] + t;
                    assert(selection_from(cands, ms, nss, i) == Some(r));
                    assert forall|k: int|
                        0 <= k < idx.len() implies i <= #[trigger] idx[k] < cands.len() && satisfied(cands, ms, nss, idx[k])
                            && r[k] == (cands[idx[k]].0@, cands[idx[k]].1->0) by {
                        if k > 0 {
                            assert(idx[k] == rest[k - 1]);
                            assert(r[k] == t[k - 1]);
                        }
                    }
                    assert forall|k1: int, k2: int| 0 <= k1 < k2 < idx.len() implies idx[k1] < idx[k2] by {
                        assert(idx[k2] == rest[k2 - 1]);
                        if k1 > 0 {
                            assert(idx[k1] == rest[k1 - 1]);
                        }
                    }
                    assert forall|j: int| i <= j < cands.len() && #[trigger] satisfied(cands, ms, nss, j) implies idx.contains(j) by {
                        if j == ii {
                            assert(idx[0] == ii);
                        } else {
                            assert(rest.contains(j));
                            let k = choose|k: int| 0 <= k < rest.len() && rest[k] == j;
                            assert(idx[k + 1] == j);
                        }
                    }
                    assert(!(exists|j: int| i <= j < cands.len() && #[trigger] stops_search(cands, ms, nss, j))) by {
                        if exists|j: int| i <= j < cands.len() && #[trigger] stops_search(cands, ms, nss, j) {
                            let j = choose|j: int| i <= j < cands.len() && #[trigger] stops_search(cands, ms, nss, j);
                            assert(j != ii);
                        }
                    }
                },
            }
            idx
        } else {
            // not found, or found and some term fails
            match selection_from(cands, ms, nss, i + 1) {
                None => {
                    let j = choose|j: int| i + 1 <= j < cands.len() && #[trigger] stops_search(cands, ms, nss, j);
                    assert(selection_from(cands, ms, nss, i) is None);
                },
                Some(t) => {
                    assert(selection_from(cands, ms, nss, i) == Some(Seq::<(Seq<char>, JsonObject)>::empty() + t));
                    assert(Seq::<(Seq<char>, JsonObject)>::empty() + t =~= t);
                    assert forall|j: int| i <= j < cands.len() && #[trigger] satisfied(cands, ms, nss, j) implies rest.contains(j) by {
                        assert(j != ii);
                    }
                    assert(!(exists|j: int| i <= j < cands.len() && #[trigger] stops_search(cands, ms, nss, j))) by {
                        if exists|j: int| i <= j < cands.len() && #[trigger] stops_search(cands, ms, nss, j) {
                            let j = choose|j: int| i <= j < cands.len() && #[trigger] stops_search(cands, ms, nss, j);
                            assert(j != ii);
                        }
                    }
                },
            }
            rest
        }
    }
}

/// What a search returns, for all candidates: it stops (`None`) exactly when
/// some found candidate's document stops the evaluation of the terms;
/// otherwise it returns, in the candidates' order, each found candidate whose
/// document satisfies every term, with its id, and nothing else: the result
/// follows an increasing list of candidate positions that holds every
/// satisfying candidate and only those.
pub proof fn law_selection_is_the_satisfying_candidates(
    cands: Seq<(String, Option<JsonObject>)>,
    ms: Seq<ComparisonModel>,
    nss: Seq<Vec<Option<NumOrder>>>,
)
    ensures
        selection(cands, ms, nss) is None <==> exists|j: int|
            0 <= j < cands.len() && #[trigger] stops_search(cands, ms, nss, j),
        selection(cands, ms, nss) matches Some(r) ==> exists|idx: Seq<int>| {
            &&& idx.len() == r.len()
            &&& forall|k: int|
                0 <= k < idx.len() ==> 0 <= #[trigger] idx[k] < cands.len() && satisfied(cands, ms, nss, idx[k])
                    && r[k] == (cands[idx[k]].0@, cands[idx[k]].1->0)
            &&& forall|k1: int, k2: int| 0 <= k1 < k2 < idx.len() ==> idx[k1] < idx[k2]
            &&& forall|j: int| 0 <= j < cands.len() && #[trigger] satisfied(cands, ms, nss, j) ==> idx.contains(j)
        },
{
    let idx = lemma_selection_from(cands, ms, nss, 0);
    if let Some(r) = selection(cands, ms, nss) {
        assert(idx.len() == r.len());
    }
}

} // verus!

verus! {

/// Term `i` holds of the document without stopping the search.
pub open spec fn term_holds(ms: Seq<ComparisonModel>, doc: JsonObject, ns: Seq<Option<NumOrder>>, i: int) -> bool {
    &&& !term_aborts(ms[i], doc, numeric_at(ns, i))
    &&& matches_spec(ms[i].key, ms[i].value, ms[i].op, doc, numeric_at(ns, i))
}

proof fn lemma_terms_outcome_from(ms: Seq<ComparisonModel>, doc: JsonObject, ns: Seq<Option<NumOrder>>, i: nat)
    requires
        i <= ms.len(),
    ensures
        terms_outcome_from(ms, doc, ns, i) == Some(true) <==> forall|j: int|
            i <= j < ms.len() ==> #[trigger] term_holds(ms, doc, ns, j),
        terms_outcome_from(ms, doc, ns, i) is None <==> exists|j: int|
            i <= j < ms.len() && term_aborts(ms[j], doc, numeric_at(ns, j)) && forall|l: int|
                i <= l < j ==> #[trigger] term_holds(ms, doc, ns, l),
    decreases ms.len() - i,
{
    if i < ms.len() {
        lemma_terms_outcome_from(ms, doc, ns, i + 1);
        let ii = i as int;
        if term_aborts(ms[ii], doc, numeric_at(ns, ii)) {
            assert(!term_holds(ms, doc, ns, ii));
            assert(forall|l: int| i <= l < ii ==> #[trigger] term_holds(ms, doc, ns, l));
        } else if !term_holds(ms, doc, ns, ii) {
            assert(terms_outcome_from(ms, doc, ns, i) == Some(false));
            assert(!(exists|j: int|
                i <= j < ms.len() && term_aborts(ms[j], doc, numeric_at(ns, j)) && forall|l: int|
                    i <= l < j ==> #[trigger] term_holds(ms, doc, ns, l))) by {
                if exists|j: int|
                    i <= j < ms.len() && term_aborts(ms[j], doc, numeric_at(ns, j)) && forall|l: int|
                        i <= l < j ==> #[trigger] term_holds(ms, doc, ns, l) {
                    let j = choose|j: int|
                        i <= j < ms.len() && term_aborts(ms[j], doc, numeric_at(ns, j)) && forall|l: int|
                            i <= l < j ==> #[trigger] term_holds(ms, doc, ns, l);
                    assert(j != ii);
                    assert(term_holds(ms, doc, ns, ii));
                }
            }
        } else {
            assert(terms_outcome_from(ms, doc, ns, i) == terms_outcome_from(ms, doc, ns, i + 1));
            if exists|j: int|
                i + 1 <= j < ms.len() && term_aborts(ms[j], doc, numeric_at(ns, j)) && forall|l: int|
                    i + 1 <= l < j ==> #[trigger] term_holds(ms, doc, ns, l) {
                let j = choose|j: int|
                    i + 1 <= j < ms.len() && term_aborts(ms[j], doc, numeric_at(ns, j)) && forall|l: int|
                        i + 1 <= l < j ==> #[trigger] term_holds(ms, doc, ns, l);
                assert(forall|l: int| i <= l < j ==> #[trigger] term_holds(ms, doc, ns, l));
            }
            if exists|j: int|
                i <= j < ms.len() && term_aborts(ms[j], doc, numeric_at(ns, j)) && forall|l: int|
                    i <= l < j ==> #[trigger] term_holds(ms, doc, ns, l) {
                let j = choose|j: int|
                    i <= j < ms.len() && term_aborts(ms[j], doc, numeric_at(ns, j)) && forall|l: int|
                        i <= l < j ==> #[trigger] term_holds(ms, doc, ns, l);
                assert(j != ii);
                assert(forall|l: int| i + 1 <= l < j ==> #[trigger] term_holds(ms, doc, ns, l));
            }
        }
    }
}

/// Checking every term, in order: a document satisfies all of them exactly
/// when each term holds of it without stopping the search, and the search
/// stops exactly when some term stops it after every earlier term held.
pub proof fn law_all_terms(ms: Seq<ComparisonModel>, doc: JsonObject, ns: Seq<Option<NumOrder>>)
    ensures
        all_terms_outcome(ms, doc, ns) == Some(true) <==> forall|j: int|
            0 <= j < ms.len() ==> #[trigger] term_holds(ms, doc, ns, j),
        all_terms_outcome(ms, doc, ns) is None <==> exists|j: int|
            0 <= j < ms.len() && term_aborts(ms[j], doc, numeric_at(ns, j)) && forall|l: int|
                0 <= l < j ==> #[trigger] term_holds(ms, doc, ns, l),
{
    lemma_terms_outcome_from(ms, doc, ns, 0);
}

} // verus!
