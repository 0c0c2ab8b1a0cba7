//! The index: for each path value, the ids of the documents that have it,
//! kept as one text of ids separated by commas.

use vstd::prelude::*;
use vstd::string::*;
use crate::text::{split_seq, split_str, str_eq};

verus! {

/// The ids that an index text lists, as `split(",")` gives them.
pub open spec fn index_ids(content: Seq<char>) -> Seq<Seq<char>> {
    split_seq(content, ',')
}

/// The index text after adding `id`: `id` alone for an empty text, the text
/// unchanged when it lists `id` already, else the text, a comma and `id`.
pub open spec fn index_add_spec(content: Seq<char>, id: Seq<char>) -> Seq<char> {
    if content.len() == 0 {
        id
    } else if index_ids(content).contains(id) {
        content
    } else {
        content + ","@ + id
    }
}

/// The ids listed by an index text.
pub fn split_ids<'a>(content: &'a str) -> (r: Vec<&'a str>)
    ensures
        r@.map_values(|k: &str| k@) == index_ids(content@),
{
    split_str(content, ',')
}

/// Adds the document id `id` to the index text `content`.
pub fn add_id(content: String, id: &str) -> (r: String)
    ensures
        r@ == index_add_spec(content@, id@),
{
    if content.as_str().is_empty() {
        return String::from_str(id);
    }
    let ids = split_ids(content.as_str());
    let ghost views = ids@.map_values(|k: &str| k@);
    let mut found = false;
    let mut i: usize = 0;
    while i < ids.len()
        invariant
            views == ids@.map_values(|k: &str| k@),
            i <= ids@.len(),
            found == (exists|j: int| 0 <= j < i && views[j] == id@),
        decreases ids@.len() - i,
    {
        assert(views[i as int] == ids@[i as int]@);
        if str_eq(ids[i], id) {
            found = true;
        }
        proof {
            assert forall|j: int| 0 <= j < i + 1 && views[j] == id@ implies j == i || (0 <= j < i && views[j] == id@) by {}
        }
        i = i + 1;
    }
    proof {
        if found {
            let j = choose|j: int| 0 <= j < ids@.len() && views[j] == id@;
            assert(views.contains(id@));
        } else {
            assert(!views.contains(id@));
        }
    }
    if found {
        content
    } else {
        let mut r = content;
        r.append(",");
        r.append(id);
        r
    }
}

} // verus!

verus! {

/// Splitting a text with no separator gives the text alone.
pub proof fn lemma_split_none(s: Seq<char>, c: char)
    requires
        !s.contains(c),
    ensures
        split_seq(s, c) == seq![s],
{
    assert forall|j: int| 0 <= j < s.len() implies s[j] != c by {
        if s[j] == c {
            assert(s.contains(c));
        }
    }
    crate::text::lemma_first_index(s, c, s.len() as int);
}

/// Splitting `a`, a separator and `b` gives the pieces of `a`, then those of `b`.
pub proof fn lemma_split_join(a: Seq<char>, b: Seq<char>, c: char)
    ensures
        split_seq(a + seq![c] + b, c) == split_seq(a, c) + split_seq(b, c),
    decreases a.len(),
{
    let s = a + seq![c] + b;
    crate::text::lemma_first_index_bounds(a, c);
    let k = crate::text::first_index(a, c) as int;
    if k >= a.len() {
        assert forall|j: int| 0 <= j < a.len() implies s[j] != c by {
            assert(s[j] == a[j]);
        }
        crate::text::lemma_first_index(s, c, a.len() as int);
        assert(s.take(a.len() as int) =~= a);
        assert(s.skip(a.len() as int + 1) =~= b);
        crate::text::lemma_first_index(a, c, a.len() as int);
        assert(split_seq(a, c) == seq![a]);
        assert(split_seq(s, c) =~= seq![a] + split_seq(b, c));
    } else {
        let a1 = a.take(k);
        let a2 = a.skip(k + 1);
        assert forall|j: int| 0 <= j < k implies s[j] != c by {
            assert(s[j] == a[j]);
        }
        crate::text::lemma_first_index(s, c, k);
        assert(s.take(k) =~= a1);
        assert(s.skip(k + 1) =~= a2 + seq![c] + b);
        lemma_split_join(a2, b, c);
        assert(split_seq(a, c) == seq![a1] + split_seq(a2, c));
        assert(split_seq(s, c) =~= split_seq(a, c) + split_seq(b, c));
    }
}

/// Adding an id that holds no comma keeps the ids listed before, in order,
/// and lists the id, at the end when it was not listed yet.
pub proof fn law_add_id_lists(content: Seq<char>, id: Seq<char>)
    requires
        !id.contains(','),
    ensures
        index_ids(index_add_spec(content, id)) == (if content.len() == 0 {
            seq![id]
        } else if index_ids(content).contains(id) {
            index_ids(content)
        } else {
            index_ids(content).push(id)
        }),
        index_ids(index_add_spec(content, id)).contains(id),
{
    lemma_split_none(id, ',');
    if content.len() == 0 {
        assert(seq![id][0] == id);
    } else if index_ids(content).contains(id) {
    } else {
        lemma_split_join(content, id, ',');
        assert(content + ","@ =~= content + seq![',']) by {
            reveal_strlit(",");
        }
        assert(index_ids(content).push(id)[index_ids(content).len() as int] == id);
    }
}

/// Adding a comma-free id to an index text that lists no id twice gives an
/// index text that lists no id twice.
pub proof fn law_add_id_keeps_ids_unique(content: Seq<char>, id: Seq<char>)
    requires
        !id.contains(','),
        content.len() > 0 ==> index_ids(content).no_duplicates(),
    ensures
        index_ids(index_add_spec(content, id)).no_duplicates(),
{
    law_add_id_lists(content, id);
    if content.len() == 0 {
        assert(seq![id].no_duplicates());
    } else if !index_ids(content).contains(id) {
        let ids = index_ids(content);
        let after = ids.push(id);
        assert forall|i: int, j: int| 0 <= i < after.len() && 0 <= j < after.len() && i != j implies after[i] != after[j] by {
            if j == ids.len() {
                assert(after[i] == ids[i]);
            } else if i == ids.len() {
                assert(after[j] == ids[j]);
            } else {
                assert(after[i] == ids[i]);
                assert(after[j] == ids[j]);
            }
        }
    }
}

/// Adding the same comma-free id twice leaves the index text as adding it once.
pub proof fn law_add_id_idempotent(content: Seq<char>, id: Seq<char>)
    requires
        !id.contains(','),
    ensures
        index_add_spec(index_add_spec(content, id), id) == index_add_spec(content, id),
{
    law_add_id_lists(content, id);
    let once = index_add_spec(content, id);
    if content.len() == 0 {
        if id.len() > 0 {
            lemma_split_none(id, ',');
            assert(index_ids(id)[0] == id);
        }
    } else if !index_ids(content).contains(id) {
        reveal_strlit(",");
        assert(once.len() > 0);
    }
}

/// How many times `x` occurs in `s`.
pub open spec fn occurrences(s: Seq<Seq<char>>, x: Seq<char>) -> nat
    decreases s.len(),
{
    if s.len() == 0 {
        0
    } else {
        occurrences(s.drop_last(), x) + if s.last() == x {
            1nat
        } else {
            0nat
        }
    }
}

/// Occurrences add up over a concatenation.
pub proof fn lemma_occurrences_concat(a: Seq<Seq<char>>, b: Seq<Seq<char>>, x: Seq<char>)
    ensures
        occurrences(a + b, x) == occurrences(a, x) + occurrences(b, x),
    decreases b.len(),
{
    if b.len() == 0 {
        assert(a + b =~= a);
    } else {
        assert((a + b).drop_last() =~= a + b.drop_last());
        lemma_occurrences_concat(a, b.drop_last(), x);
    }
}

/// An element occurs iff the sequence contains it.
pub proof fn lemma_occurrences_contains(s: Seq<Seq<char>>, x: Seq<char>)
    ensures
        occurrences(s, x) > 0 <==> s.contains(x),
    decreases s.len(),
{
    if s.len() > 0 {
        lemma_occurrences_contains(s.drop_last(), x);
        if s.drop_last().contains(x) {
            let j = choose|j: int| 0 <= j < s.drop_last().len() && s.drop_last()[j] == x;
            assert(s[j] == x);
        }
        if s.contains(x) && s.last() != x {
            let j = choose|j: int| 0 <= j < s.len() && s[j] == x;
            assert(s.drop_last()[j] == x);
        }
    }
}

/// In a sequence without repeats, an element occurs at most once.
pub proof fn lemma_occurrences_unique(s: Seq<Seq<char>>, x: Seq<char>)
    requires
        s.no_duplicates(),
    ensures
        occurrences(s, x) == if s.contains(x) {
            1nat
        } else {
            0nat
        },
    decreases s.len(),
{
    if s.len() > 0 {
        let t = s.drop_last();
        assert(t.no_duplicates());
        lemma_occurrences_unique(t, x);
        lemma_occurrences_contains(t, x);
        lemma_occurrences_contains(s, x);
        if s.last() == x && t.contains(x) {
            let j = choose|j: int| 0 <= j < t.len() && t[j] == x;
            assert(s[j] == s[s.len() - 1]);
        }
    }
}

/// Once a comma-free id is added to an index text that lists no id twice,
/// reading that text counts the id exactly once: a single equality term on
/// that index entry selects the document.
pub proof fn law_added_id_counted_once(content: Seq<char>, id: Seq<char>)
    requires
        !id.contains(','),
        content.len() > 0 ==> index_ids(content).no_duplicates(),
    ensures
        occurrences(index_ids(index_add_spec(content, id)), id) == 1,
{
    law_add_id_lists(content, id);
    law_add_id_keeps_ids_unique(content, id);
    lemma_occurrences_unique(index_ids(index_add_spec(content, id)), id);
}

/// All the lists, one after the other.
pub open spec fn concat_lists(ls: Seq<Seq<Seq<char>>>) -> Seq<Seq<char>>
    decreases ls.len(),
{
    if ls.len() == 0 {
        seq![]
    } else {
        concat_lists(ls.drop_last()) + ls.last()
    }
}

/// When each index list names a document at most once, an id occurs as
/// many times as there are lists exactly when every list names it: counting
/// occurrences selects the documents that satisfy all equality terms.
pub proof fn law_count_is_intersection(ls: Seq<Seq<Seq<char>>>, x: Seq<char>)
    requires
        forall|i: int| 0 <= i < ls.len() ==> (#[trigger] ls[i]).no_duplicates(),
    ensures
        occurrences(concat_lists(ls), x) <= ls.len(),
        occurrences(concat_lists(ls), x) == ls.len() <==> (forall|i: int| 0 <= i < ls.len() ==> (#[trigger] ls[i]).contains(x)),
    decreases ls.len(),
{
    if ls.len() > 0 {
        let init = ls.drop_last();
        assert forall|i: int| 0 <= i < init.len() implies (#[trigger] init[i]).no_duplicates() by {
            assert(init[i] == ls[i]);
        }
        law_count_is_intersection(init, x);
        lemma_occurrences_concat(concat_lists(init), ls.last(), x);
        assert(ls[ls.len() - 1].no_duplicates());
        lemma_occurrences_unique(ls.last(), x);
        if forall|i: int| 0 <= i < ls.len() ==> (#[trigger] ls[i]).contains(x) {
            assert forall|i: int| 0 <= i < init.len() implies (#[trigger] init[i]).contains(x) by {
                assert(init[i] == ls[i]);
            }
            assert(ls[ls.len() - 1].contains(x));
        }
        if occurrences(concat_lists(ls), x) == ls.len() {
            assert forall|i: int| 0 <= i < ls.len() implies (#[trigger] ls[i]).contains(x) by {
                if i < init.len() {
                    assert(init[i] == ls[i]);
                }
            }
        }
    }
}

} // verus!

verus! {

/// The views of a vector of strings.
pub open spec fn views_of(v: Seq<String>) -> Seq<Seq<char>> {
    v.map_values(|s: String| s@)
}

/// What the equality terms of a query select through the index: every id
/// read from the index lists so far is counted, and the ids selected are
/// those counted once per equality term. The counts are a list of distinct
/// ids rather than a `HashMap`: vstd states what a `HashMap` does only for
/// keys whose hashing it models (integers and the like), not for `String`s.
pub struct EqualityMatches {
    counts: Vec<(String, u32)>,
    equal_queries: u32,
    matched: Vec<String>,
    recorded: Ghost<Seq<Seq<char>>>,
}

/// The counts name each id read once, with the number of times it was read,
/// and name no other.
pub open spec fn counts_agree(c: Seq<(String, u32)>, r: Seq<Seq<char>>) -> bool {
    &&& forall|i: int, j: int| 0 <= i < j < c.len() ==> c[i].0@ != c[j].0@
    &&& forall|i: int| 0 <= i < c.len() ==> (#[trigger] c[i]).1 == occurrences(r, c[i].0@)
    &&& forall|i: int| 0 <= i < c.len() ==> r.contains((#[trigger] c[i]).0@)
    &&& forall|x: Seq<char>| #[trigger] r.contains(x) ==> exists|i: int| 0 <= i < c.len() && (#[trigger] c[i]).0@ == x
}

/// Reading the id `p` once more: its count goes up by one where it is
/// counted already (at `at`), and a count of one is added at the end where
/// it is not.
proof fn lemma_counts_step(c0: Seq<(String, u32)>, c1: Seq<(String, u32)>, before: Seq<Seq<char>>, p: Seq<char>, at: int)
    requires
        counts_agree(c0, before),
        0 <= at <= c0.len(),
        at < c0.len() ==> c0[at].0@ == p && c1 == c0.update(at, (c1[at].0, c1[at].1)) && c1[at].0@ == p
            && c1[at].1 == c0[at].1 + 1,
        at == c0.len() ==> !before.contains(p) && c1 == c0.push(c1[at]) && c1[at].0@ == p && c1[at].1 == 1,
    ensures
        counts_agree(c1, before.push(p)),
{
    let after = before.push(p);
    assert(after.drop_last() =~= before);
    assert forall|x: Seq<char>| occurrences(after, x) == occurrences(before, x) + (if x == p { 1nat } else { 0nat }) by {}
    assert forall|x: Seq<char>| #[trigger] after.contains(x) <==> (before.contains(x) || x == p) by {
        if after.contains(x) && x != p {
            let j = choose|j: int| 0 <= j < after.len() && after[j] == x;
            assert(before[j] == x);
        }
        if before.contains(x) {
            let j = choose|j: int| 0 <= j < before.len() && before[j] == x;
            assert(after[j] == x);
        }
        if x == p {
            assert(after[before.len() as int] == x);
        }
    }
    if at == c0.len() {
        lemma_occurrences_contains(before, p);
    }
    assert forall|i: int| 0 <= i < c1.len() && i != at implies #[trigger] c1[i] == c0[i] by {}
    assert forall|i: int, j: int| 0 <= i < j < c1.len() implies c1[i].0@ != c1[j].0@ by {
        if i != at {
            assert(c1[i] == c0[i]);
        }
        if j != at {
            assert(c1[j] == c0[j]);
        }
    }
    assert forall|i: int| 0 <= i < c1.len() implies (#[trigger] c1[i]).1 == occurrences(after, c1[i].0@) by {
        if i != at {
            assert(c1[i] == c0[i]);
        }
    }
    assert forall|i: int| 0 <= i < c1.len() implies after.contains((#[trigger] c1[i]).0@) by {
        if i != at {
            assert(c1[i] == c0[i]);
            assert(before.contains(c0[i].0@));
        }
    }
    assert forall|x: Seq<char>| #[trigger] after.contains(x) implies exists|i: int| 0 <= i < c1.len() && (#[trigger] c1[i]).0@ == x by {
        if x == p {
            assert(c1[at].0@ == x);
        } else {
            assert(before.contains(x));
            let i = choose|i: int| 0 <= i < c0.len() && (#[trigger] c0[i]).0@ == x;
            assert(c1[i] == c0[i]);
        }
    }
}

impl EqualityMatches {
    /// The ids read from the index lists so far, in order, repeats included.
    pub closed spec fn recorded(&self) -> Seq<Seq<char>> {
        self.recorded@
    }

    /// The number of equality terms met so far.
    pub closed spec fn equal_queries(&self) -> nat {
        self.equal_queries as nat
    }

    /// The ids selected so far.
    pub closed spec fn matched_view(&self) -> Seq<Seq<char>> {
        views_of(self.matched@)
    }

    /// The counts are the occurrences of the ids read, each id counted once.
    pub closed spec fn wf(&self) -> bool {
        &&& counts_agree(self.counts@, self.recorded@)
        &&& views_of(self.matched@).no_duplicates()
    }

    /// Nothing read, no equality term met, nothing selected.
    pub fn new() -> (m: EqualityMatches)
        ensures
            m.wf(),
            m.recorded() == Seq::<Seq<char>>::empty(),
            m.equal_queries() == 0,
            m.matched_view() == Seq::<Seq<char>>::empty(),
    {
        let m = EqualityMatches {
            counts: Vec::new(),
            equal_queries: 0,
            matched: Vec::new(),
            recorded: Ghost(Seq::empty()),
        };
        assert(views_of(m.matched@) =~= Seq::<Seq<char>>::empty());
        m
    }

    /// Counts one more equality term.
    pub fn begin_equality(&mut self)
        requires
            old(self).wf(),
            old(self).equal_queries() < u32::MAX,
        ensures
            final(self).wf(),
            final(self).equal_queries() == old(self).equal_queries() + 1,
            final(self).recorded() == old(self).recorded(),
            final(self).matched_view() == old(self).matched_view(),
    {
        self.equal_queries = self.equal_queries + 1;
    }

    /// Reads the ids of an index list (a text of ids separated by commas)
    /// and selects anew the ids counted once per equality term so far.
    pub fn record(&mut self, ids: &str)
        requires
            old(self).wf(),
            forall|x: Seq<char>| occurrences(old(self).recorded() + split_seq(ids@, ','), x) <= u32::MAX,
        ensures
            final(self).wf(),
            final(self).recorded() == old(self).recorded() + split_seq(ids@, ','),
            final(self).equal_queries() == old(self).equal_queries(),
            final(self).matched_view().no_duplicates(),
            forall|x: Seq<char>| #[trigger] final(self).matched_view().contains(x) <==> (final(self).recorded().contains(x)
                && occurrences(final(self).recorded(), x) == final(self).equal_queries()),
    {
        let pieces = split_str(ids, ',');
        let ghost pv = pieces@.map_values(|k: &str| k@);
        let ghost start = self.recorded@;
        let ghost total = start + pv;
        let n = pieces.len();
        let mut k: usize = 0;
        assert(pv =~= split_seq(ids@, ','));
        assert(start == old(self).recorded());
        assert forall|x: Seq<char>| occurrences(total, x) <= u32::MAX by {
            assert(total == old(self).recorded() + split_seq(ids@, ','));
        }
        assert(pv.take(0) =~= Seq::<Seq<char>>::empty());
        assert(start + pv.take(0) =~= start);
        while k < n
            invariant
                n == pieces@.len(),
                pv == pieces@.map_values(|k: &str| k@),
                total == start + pv,
                k <= n,
                self.recorded@ == start + pv.take(k as int),
                forall|x: Seq<char>| occurrences(total, x) <= u32::MAX,
                counts_agree(self.counts@, self.recorded@),
                self.equal_queries == old(self).equal_queries,
            decreases n - k,
        {
            let p: &str = pieces[k];
            let ghost before = self.recorded@;
            let ghost after = before.push(p@);
            proof {
                assert(pv[k as int] == p@);
                assert(pv.take(k + 1) =~= pv.take(k as int).push(p@));
                assert(start + pv.take(k + 1) =~= after);
                assert(total =~= after + pv.skip(k + 1));
                lemma_occurrences_concat(after, pv.skip(k + 1), p@);
                assert(after.drop_last() =~= before);
            }
            let c = self.counts.len();
            let mut idx: usize = 0;
            while idx < c && !str_eq(self.counts[idx].0.as_str(), p)
                invariant
                    c == self.counts@.len(),
                    idx <= c,
                    forall|j: int| 0 <= j < idx ==> self.counts@[j].0@ != p@,
                decreases c - idx,
            {
                idx = idx + 1;
            }
            let ghost old_counts = self.counts@;
            if idx < c {
                let name = self.counts[idx].0.clone();
                let cnt = self.counts[idx].1;
                proof {
                    assert(cnt == occurrences(before, p@));
                    assert(occurrences(after, p@) <= occurrences(total, p@));
                }
                self.counts.set(idx, (name, cnt + 1));
            } else {
                proof {
                    assert(!before.contains(p@)) by {
                        if before.contains(p@) {
                            let i = choose|i: int| 0 <= i < old_counts.len() && (#[trigger] old_counts[i]).0@ == p@;
                        }
                    }
                }
                self.counts.push((String::from_str(p), 1));
            }
            self.recorded = Ghost(after);
            proof {
                lemma_counts_step(old_counts, self.counts@, before, p@, idx as int);
            }
            k = k + 1;
        }
        proof {
            assert(pv.take(n as int) =~= pv);
        }
        let mut matched: Vec<String> = Vec::new();
        let c = self.counts.len();
        let mut i: usize = 0;
        while i < c
            invariant
                c == self.counts@.len(),
                i <= c,
                counts_agree(self.counts@, self.recorded@),
                forall|x: Seq<char>| #[trigger] views_of(matched@).contains(x) <==> exists|j: int| 0 <= j < i && (#[trigger] self.counts@[j]).0@ == x && self.counts@[j].1 == self.equal_queries,
                forall|a: int| #![trigger views_of(matched@)[a]] 0 <= a < matched@.len() ==> exists|j: int| 0 <= j < i && (#[trigger] self.counts@[j]).0@ == views_of(matched@)[a],
                views_of(matched@).no_duplicates(),
            decreases c - i,
        {
            if self.counts[i].1 == self.equal_queries {
                let name = self.counts[i].0.clone();
                let ghost old_m = views_of(matched@);
                matched.push(name);
                proof {
                    let m = views_of(matched@);
                    assert(m =~= old_m.push(name@));
                    assert forall|a: int, b: int| 0 <= a < b < m.len() implies m[a] != m[b] by {
                        if b == m.len() - 1 {
                            assert(m[a] == old_m[a]);
                            let j = choose|j: int| 0 <= j < i && (#[trigger] self.counts@[j]).0@ == old_m[a];
                        }
                    }
                    assert forall|x: Seq<char>| #[trigger] m.contains(x) <==> exists|j: int| 0 <= j < i + 1 && (#[trigger] self.counts@[j]).0@ == x && self.counts@[j].1 == self.equal_queries by {
                        if m.contains(x) {
                            let a = choose|a: int| 0 <= a < m.len() && m[a] == x;
                            if a < old_m.len() {
                                assert(old_m[a] == x);
                                assert(old_m.contains(x));
                            } else {
                                assert(self.counts@[i as int].0@ == x);
                            }
                        }
                        if exists|j: int| 0 <= j < i + 1 && (#[trigger] self.counts@[j]).0@ == x && self.counts@[j].1 == self.equal_queries {
                            let j = choose|j: int| 0 <= j < i + 1 && (#[trigger] self.counts@[j]).0@ == x && self.counts@[j].1 == self.equal_queries;
                            if j < i {
                                assert(old_m.contains(x));
                                let a = choose|a: int| 0 <= a < old_m.len() && old_m[a] == x;
                                assert(m[a] == x);
                            } else {
                                assert(m[old_m.len() as int] == x);
                            }
                        }
                    }
                    assert forall|a: int| #![trigger views_of(matched@)[a]] 0 <= a < matched@.len() implies exists|j: int| 0 <= j < i + 1 && (#[trigger] self.counts@[j]).0@ == views_of(matched@)[a] by {
                        if a < old_m.len() {
                            assert(views_of(matched@)[a] == old_m[a]);
                        } else {
                            assert(self.counts@[i as int].0@ == views_of(matched@)[a]);
                        }
                    }
                }
            } else {
                proof {
                    let m = views_of(matched@);
                    assert forall|x: Seq<char>| #[trigger] m.contains(x) <==> exists|j: int| 0 <= j < i + 1 && (#[trigger] self.counts@[j]).0@ == x && self.counts@[j].1 == self.equal_queries by {
                        if exists|j: int| 0 <= j < i + 1 && (#[trigger] self.counts@[j]).0@ == x && self.counts@[j].1 == self.equal_queries {
                            let j = choose|j: int| 0 <= j < i + 1 && (#[trigger] self.counts@[j]).0@ == x && self.counts@[j].1 == self.equal_queries;
                            assert(j != i);
                        }
                    }
                }
            }
            i = i + 1;
        }
        let ghost cs = self.counts@;
        proof {
            assert forall|x: Seq<char>| #[trigger] self.recorded@.contains(x) implies exists|i: int| 0 <= i < cs.len() && (#[trigger] cs[i]).0@ == x by {
                let j = choose|j: int| 0 <= j < self.counts@.len() && (#[trigger] self.counts@[j]).0@ == x;
                assert(cs[j].0@ == x);
            }
        }
        self.matched = matched;
        proof {
            let r = self.recorded@;
            assert(cs == self.counts@);
            assert forall|x: Seq<char>| #[trigger] r.contains(x) implies exists|i: int| 0 <= i < self.counts@.len() && (#[trigger] self.counts@[i]).0@ == x by {
                let j = choose|j: int| 0 <= j < cs.len() && (#[trigger] cs[j]).0@ == x;
                assert(self.counts@[j].0@ == x);
            }
            assert(views_of(self.matched@).no_duplicates());
            assert(forall|i: int| 0 <= i < self.counts@.len() ==> (#[trigger] self.counts@[i]).1 == occurrences(r, self.counts@[i].0@));
            assert(forall|i: int| 0 <= i < self.counts@.len() ==> r.contains((#[trigger] self.counts@[i]).0@));
            assert(forall|x: Seq<char>| #[trigger] r.contains(x) ==> exists|i: int| 0 <= i < self.counts@.len() && (#[trigger] self.counts@[i]).0@ == x);
            assert forall|x: Seq<char>| #[trigger] self.matched_view().contains(x) <==> (r.contains(x) && occurrences(r, x) == self.equal_queries()) by {
                if r.contains(x) {
                    let j = choose|j: int| 0 <= j < self.counts@.len() && (#[trigger] self.counts@[j]).0@ == x;
                    assert(self.counts@[j].1 == occurrences(r, x));
                }
                if self.matched_view().contains(x) {
                    let j = choose|j: int| 0 <= j < c && (#[trigger] self.counts@[j]).0@ == x && self.counts@[j].1 == self.equal_queries;
                    assert(r.contains(self.counts@[j].0@));
                }
            }
        }
    }

    /// The number of equality terms met so far.
    pub fn equal_query_count(&self) -> (r: u32)
        ensures
            r == self.equal_queries(),
    {
        self.equal_queries
    }

    /// Whether reading the index list `ids` keeps every count within `u32`.
    pub fn fits(&self, ids: &str) -> (r: bool)
        requires
            self.wf(),
        ensures
            r == (forall|x: Seq<char>| occurrences(self.recorded() + split_seq(ids@, ','), x) <= u32::MAX),
    {
        let pieces = split_str(ids, ',');
        let ghost pv = pieces@.map_values(|k: &str| k@);
        let ghost r0 = self.recorded@;
        assert(pv =~= split_seq(ids@, ','));
        let n = pieces.len();
        let mut k: usize = 0;
        while k < n
            invariant
                n == pieces@.len(),
                pv == pieces@.map_values(|k: &str| k@),
                r0 == self.recorded@,
                pv == split_seq(ids@, ','),
                self.wf(),
                k <= n,
                forall|a: int| 0 <= a < k ==> occurrences(r0, pv[a]) + occurrences(pv, #[trigger] pv[a]) <= u32::MAX,
            decreases n - k,
        {
            let p: &str = pieces[k];
            assert(pv[k as int] == p@);
            // the count so far of `p`
            let c = self.counts.len();
            let mut idx: usize = 0;
            while idx < c && !str_eq(self.counts[idx].0.as_str(), p)
                invariant
                    c == self.counts@.len(),
                    idx <= c,
                    forall|j: int| 0 <= j < idx ==> self.counts@[j].0@ != p@,
                decreases c - idx,
            {
                idx = idx + 1;
            }
            let existing: u32 = if idx < c {
                self.counts[idx].1
            } else {
                0
            };
            proof {
                if idx >= c {
                    if r0.contains(p@) {
                        let i = choose|i: int| 0 <= i < self.counts@.len() && (#[trigger] self.counts@[i]).0@ == p@;
                    }
                    lemma_occurrences_contains(r0, p@);
                }
            }
            assert(existing == occurrences(r0, p@));
            // the occurrences of `p` among the new ids
            let mut m: usize = 0;
            let mut j: usize = 0;
            assert(pv.take(0) =~= Seq::<Seq<char>>::empty());
            while j < n
                invariant
                    n == pieces@.len(),
                    pv == pieces@.map_values(|k: &str| k@),
                    j <= n,
                    m <= j,
                    m == occurrences(pv.take(j as int), p@),
                decreases n - j,
            {
                assert(pv.take(j + 1).drop_last() =~= pv.take(j as int));
                assert(pv[j as int] == pieces@[j as int]@);
                if str_eq(pieces[j], p) {
                    m = m + 1;
                }
                j = j + 1;
            }
            assert(pv.take(n as int) =~= pv);
            if m as u64 > (u32::MAX - existing) as u64 {
                proof {
                    lemma_occurrences_concat(r0, pv, p@);
                    assert(m == occurrences(pv, p@));
                    assert(m + existing > u32::MAX);
                    assert(self.recorded() == r0);
                    assert(split_seq(ids@, ',') == pv);
                    assert(occurrences(self.recorded() + split_seq(ids@, ','), p@) > u32::MAX);
                }
                return false;
            }
            k = k + 1;
        }
        proof {
            assert forall|x: Seq<char>| occurrences(r0 + pv, x) <= u32::MAX by {
                lemma_occurrences_concat(r0, pv, x);
                if pv.contains(x) {
                    let a = choose|a: int| 0 <= a < pv.len() && pv[a] == x;
                    assert(occurrences(r0, pv[a]) + occurrences(pv, pv[a]) <= u32::MAX);
                } else {
                    lemma_occurrences_contains(pv, x);
                    if r0.contains(x) {
                        let i = choose|i: int| 0 <= i < self.counts@.len() && (#[trigger] self.counts@[i]).0@ == x;
                        assert(self.counts@[i].1 == occurrences(r0, x));
                    } else {
                        lemma_occurrences_contains(r0, x);
                    }
                }
            }
        }
        true
    }

    /// The ids selected so far.
    pub fn matched(&self) -> (r: &Vec<String>)
        ensures
            views_of(r@) == self.matched_view(),
    {
        &self.matched
    }

    /// Whether the documents are to be scanned instead: nothing is selected
    /// and the query asks to skip the index.
    pub fn use_scan(&self, skip_index: bool) -> (r: bool)
        ensures
            r == (self.matched_view().len() == 0 && skip_index),
    {
        self.matched.len() == 0 && skip_index
    }
}

} // verus!
