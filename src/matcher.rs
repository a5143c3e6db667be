//! Matching a query against the names of a listing.

use vstd::prelude::*;

use crate::distance::{lev, levenshtein};
use crate::lister::{is_listed, lemma_no_media_empty_listing, list_files, listed, Entry};
use crate::normalize::{
    contains_run, fold, folded, is_infix, lemma_infix_survives, normalize, normalized,
};

verus! {

/// What a search returns when no name contains the query.
#[derive(Clone, Copy, Debug, PartialEq, Eq, Structural)]
pub enum Fallback {
    /// The names that match the listed name nearest to the query by edit distance.
    Nearest,
    /// The whole listing.
    All,
}

/// How a search compares and what it falls back on.
#[derive(Clone, Copy, Debug, PartialEq, Eq, Structural)]
pub struct MatchPolicy {
    /// Whether digits are dropped from names and queries before comparison.
    pub strip_digits: bool,
    pub fallback: Fallback,
}

impl MatchPolicy {
    pub fn new(strip_digits: bool, fallback: Fallback) -> (r: MatchPolicy)
        ensures
            r.strip_digits == strip_digits,
            r.fallback == fallback,
    {
        MatchPolicy { strip_digits, fallback }
    }
}

/// The name's normal form contains the normalized query `q`.
pub open spec fn name_matches(q: Seq<u32>, name: Seq<char>, strip_digits: bool) -> bool {
    is_infix(q, normalized(name, strip_digits))
}

/// The names that match `q`, in listing order, duplicates kept.
pub open spec fn matching(q: Seq<u32>, names: Seq<Seq<char>>, strip_digits: bool) -> Seq<
    Seq<char>,
>
    decreases names.len(),
{
    if names.len() == 0 {
        seq![]
    } else {
        let rest = matching(q, names.drop_last(), strip_digits);
        if name_matches(q, names.last(), strip_digits) {
            rest.push(names.last())
        } else {
            rest
        }
    }
}

/// The distance from the case-folded query `q` to a case-folded name.
pub open spec fn gap(q: Seq<u32>, name: Seq<char>) -> nat {
    lev(q, folded(name))
}

/// The index of the first name at the least distance from `q`.
pub open spec fn nearest(q: Seq<u32>, names: Seq<Seq<char>>) -> int
    decreases names.len(),
{
    if names.len() <= 1 {
        0
    } else {
        let k = nearest(q, names.drop_last());
        if gap(q, names.last()) < gap(q, names[k]) {
            names.len() - 1
        } else {
            k
        }
    }
}

/// The result of searching `names` for `query` under `policy`.
pub open spec fn found(query: Seq<char>, names: Seq<Seq<char>>, policy: MatchPolicy) -> Seq<
    Seq<char>,
> {
    let hits = matching(normalized(query, policy.strip_digits), names, policy.strip_digits);
    if hits.len() > 0 {
        hits
    } else {
        match policy.fallback {
            Fallback::All => names,
            Fallback::Nearest => if names.len() == 0 {
                seq![]
            } else {
                matching(
                    normalized(names[nearest(folded(query), names)], policy.strip_digits),
                    names,
                    policy.strip_digits,
                )
            },
        }
    }
}

pub proof fn lemma_nearest_in_range(q: Seq<u32>, names: Seq<Seq<char>>)
    requires
        names.len() > 0,
    ensures
        0 <= nearest(q, names) < names.len(),
    decreases names.len(),
{
    if names.len() > 1 {
        lemma_nearest_in_range(q, names.drop_last());
    }
}

/// The nearest name is at least as close to the query as every name, and
/// closer than every name listed before it.
pub proof fn lemma_nearest_is_closest(q: Seq<u32>, names: Seq<Seq<char>>)
    requires
        names.len() > 0,
    ensures
        0 <= nearest(q, names) < names.len(),
        forall|j: int|
            0 <= j < names.len() ==> gap(q, names[nearest(q, names)]) <= #[trigger] gap(q, names[j]),
        forall|j: int|
            0 <= j < nearest(q, names) ==> gap(q, names[nearest(q, names)]) < #[trigger] gap(
                q,
                names[j],
            ),
    decreases names.len(),
{
    lemma_nearest_in_range(q, names);
    if names.len() > 1 {
        let init = names.drop_last();
        lemma_nearest_is_closest(q, init);
        assert forall|j: int| 0 <= j < init.len() implies init[j] == names[j] by {}
    }
}

/// Every name in a match list comes from the listing.
pub proof fn lemma_matching_from_names(q: Seq<u32>, names: Seq<Seq<char>>, strip_digits: bool)
    ensures
        forall|i: int|
            0 <= i < matching(q, names, strip_digits).len() ==> names.contains(
                #[trigger] matching(q, names, strip_digits)[i],
            ),
    decreases names.len(),
{
    if names.len() > 0 {
        let init = names.drop_last();
        lemma_matching_from_names(q, init, strip_digits);
        let m = matching(q, names, strip_digits);
        assert forall|i: int| 0 <= i < m.len() implies names.contains(#[trigger] m[i]) by {
            if i < matching(q, init, strip_digits).len() {
                let x = m[i];
                let w = choose|w: int| 0 <= w < init.len() && init[w] == x;
                assert(names[w] == x);
            } else {
                assert(names[names.len() - 1] == m[i]);
            }
        }
    }
}

/// A name that matches is in the match list.
pub proof fn lemma_matching_keeps(
    q: Seq<u32>,
    names: Seq<Seq<char>>,
    strip_digits: bool,
    i: int,
)
    requires
        0 <= i < names.len(),
        name_matches(q, names[i], strip_digits),
    ensures
        matching(q, names, strip_digits).contains(names[i]),
    decreases names.len(),
{
    let m = matching(q, names, strip_digits);
    if i == names.len() - 1 {
        assert(m[m.len() - 1] == names[i]);
    } else {
        let init = names.drop_last();
        assert(init[i] == names[i]);
        lemma_matching_keeps(q, init, strip_digits, i);
        let r = matching(q, init, strip_digits);
        let w = choose|w: int| 0 <= w < r.len() && r[w] == names[i];
        assert(m[w] == names[i]);
    }
}

/// Where every name matches, the match list is the listing.
pub proof fn lemma_matching_all(q: Seq<u32>, names: Seq<Seq<char>>, strip_digits: bool)
    requires
        forall|i: int| 0 <= i < names.len() ==> name_matches(q, #[trigger] names[i], strip_digits),
    ensures
        matching(q, names, strip_digits) == names,
    decreases names.len(),
{
    if names.len() > 0 {
        let init = names.drop_last();
        assert forall|i: int| 0 <= i < init.len() implies name_matches(
            q,
            #[trigger] init[i],
            strip_digits,
        ) by {
            assert(init[i] == names[i]);
        }
        lemma_matching_all(q, init, strip_digits);
        assert(name_matches(q, names[names.len() - 1], strip_digits));
        assert(init.push(names.last()) =~= names);
    }
}

proof fn lemma_infix_self(s: Seq<u32>)
    ensures
        is_infix(s, s),
{
    assert(s.subrange(0int, 0int + s.len()) =~= s);
}

/// Without names there is nothing to find, whatever the query and policy.
pub proof fn lemma_no_names_nothing_found(query: Seq<char>, policy: MatchPolicy)
    ensures
        found(query, seq![], policy) == Seq::<Seq<char>>::empty(),
{
}

/// A directory with no media file lists nothing, and no search in it finds
/// anything, whatever the query and policy.
pub proof fn lemma_no_media_nothing_found(entries: Seq<Entry>, query: Seq<char>, policy: MatchPolicy)
    requires
        forall|i: int| 0 <= i < entries.len() ==> !is_listed(#[trigger] entries[i]),
    ensures
        listed(entries).len() == 0,
        found(query, listed(entries), policy).len() == 0,
{
    lemma_no_media_empty_listing(entries);
    lemma_no_names_nothing_found(query, policy);
}

/// A query that normalizes to nothing finds every name, in order.
pub proof fn lemma_blank_query_finds_all(
    query: Seq<char>,
    names: Seq<Seq<char>>,
    policy: MatchPolicy,
)
    requires
        normalized(query, policy.strip_digits).len() == 0,
    ensures
        found(query, names, policy) == names,
{
    let q = normalized(query, policy.strip_digits);
    assert forall|i: int| 0 <= i < names.len() implies name_matches(
        q,
        #[trigger] names[i],
        policy.strip_digits,
    ) by {
        let t = normalized(names[i], policy.strip_digits);
        assert(t.subrange(0int, 0int + q.len()) =~= q);
    }
    lemma_matching_all(q, names, policy.strip_digits);
    if names.len() == 0 {
        assert(names =~= seq![]);
    }
}

/// A name that contains the query, case aside, is among the names found.
pub proof fn lemma_substring_found(
    query: Seq<char>,
    names: Seq<Seq<char>>,
    policy: MatchPolicy,
    i: int,
)
    requires
        0 <= i < names.len(),
        is_infix(folded(query), folded(names[i])),
    ensures
        found(query, names, policy).contains(names[i]),
{
    lemma_infix_survives(query, names[i], policy.strip_digits);
    lemma_matching_keeps(normalized(query, policy.strip_digits), names, policy.strip_digits, i);
}

/// Searching twice for the same query in the same names finds the same
/// names in the same order.
pub proof fn lemma_search_repeatable(
    query: Seq<char>,
    names: Seq<Seq<char>>,
    policy: MatchPolicy,
    first: Seq<Seq<char>>,
    second: Seq<Seq<char>>,
)
    requires
        first == found(query, names, policy),
        second == found(query, names, policy),
    ensures
        first == second,
{
}

/// Queries that differ only in the case of ASCII letters find the same names.
pub proof fn lemma_case_blind(
    query: Seq<char>,
    other: Seq<char>,
    names: Seq<Seq<char>>,
    policy: MatchPolicy,
)
    requires
        folded(query) == folded(other),
    ensures
        found(query, names, policy) == found(other, names, policy),
{
}

/// Every name found comes from the names searched.
pub proof fn lemma_found_from_names(query: Seq<char>, names: Seq<Seq<char>>, policy: MatchPolicy)
    ensures
        forall|i: int|
            0 <= i < found(query, names, policy).len() ==> names.contains(
                #[trigger] found(query, names, policy)[i],
            ),
{
    let strip = policy.strip_digits;
    lemma_matching_from_names(normalized(query, strip), names, strip);
    if names.len() > 0 {
        let k = nearest(folded(query), names);
        lemma_matching_from_names(normalized(names[k], strip), names, strip);
    }
    let r = found(query, names, policy);
    assert forall|i: int| 0 <= i < r.len() implies names.contains(#[trigger] r[i]) by {
        if matching(normalized(query, strip), names, strip).len() == 0 && policy.fallback
            == Fallback::All {
            assert(names[i] == r[i]);
        }
    }
}

/// Under the nearest-name fallback, a search of a non-empty listing finds
/// something: at least the name nearest to the query.
pub proof fn lemma_nearest_fallback_finds(query: Seq<char>, names: Seq<Seq<char>>, strip_digits: bool)
    requires
        names.len() > 0,
    ensures
        found(query, names, MatchPolicy { strip_digits, fallback: Fallback::Nearest }).len() > 0,
{
    let policy = MatchPolicy { strip_digits, fallback: Fallback::Nearest };
    let hits = matching(normalized(query, strip_digits), names, strip_digits);
    if hits.len() == 0 {
        let k = nearest(folded(query), names);
        lemma_nearest_in_range(folded(query), names);
        lemma_infix_self(normalized(names[k], strip_digits));
        lemma_matching_keeps(normalized(names[k], strip_digits), names, strip_digits, k);
    }
}

/// The names of `names` that match the normalized query `q`, in order.
pub fn filter_names(q: &Vec<u32>, names: &Vec<String>, strip_digits: bool) -> (r: Vec<String>)
    ensures
        r.deep_view() == matching(q@, names.deep_view(), strip_digits),
{
    let mut r: Vec<String> = Vec::new();
    let mut i: usize = 0;
    while i < names.len()
        invariant
            i <= names@.len(),
            r.deep_view() == matching(q@, names.deep_view().subrange(0, i as int), strip_digits),
        decreases names@.len() - i,
    {
        let name = &names[i];
        let norm = normalize(name.as_str(), strip_digits);
        let ghost before = r.deep_view();
        let ghost all = names.deep_view();
        assert(all.subrange(0, i + 1).drop_last() =~= all.subrange(0, i as int));
        assert(all[i as int] == name@);
        if contains_run(&norm, q) {
            r.push(name.clone());
            assert(r.deep_view() =~= before.push(name@));
        }
        i += 1;
    }
    assert(names.deep_view().subrange(0, names@.len() as int) =~= names.deep_view());
    r
}

/// The index of the first name at the least distance from the case-folded
/// query `q`.
pub fn nearest_name(q: &Vec<u32>, names: &Vec<String>) -> (r: usize)
    requires
        names@.len() > 0,
    ensures
        r == nearest(q@, names.deep_view()),
        r < names@.len(),
{
    let ghost all = names.deep_view();
    let mut best: usize = 0;
    let mut best_gap = levenshtein(q, &fold(names[0].as_str()));
    let mut i: usize = 1;
    assert(all[0] == names@[0]@);
    while i < names.len()
        invariant
            all == names.deep_view(),
            1 <= i <= names@.len(),
            best < i,
            best == nearest(q@, all.subrange(0, i as int)),
            best_gap == gap(q@, all[best as int]),
        decreases names@.len() - i,
    {
        let d = levenshtein(q, &fold(names[i].as_str()));
        let ghost pre = all.subrange(0, i as int);
        let ghost next = all.subrange(0, i + 1);
        assert(next.drop_last() =~= pre);
        assert(all[i as int] == names@[i as int]@);
        assert(pre[best as int] == all[best as int]);
        if d < best_gap {
            best = i;
            best_gap = d;
        }
        i += 1;
    }
    assert(all.subrange(0, names@.len() as int) =~= all);
    best
}

/// Searches `names` for `query`: the names whose normal form contains the
/// query's normal form, in order; where there is none, what `policy` falls
/// back on.
pub fn find_files(query: &str, names: &Vec<String>, policy: MatchPolicy) -> (r: Vec<String>)
    ensures
        r.deep_view() == found(query@, names.deep_view(), policy),
{
    let q = normalize(query, policy.strip_digits);
    let hits = filter_names(&q, names, policy.strip_digits);
    if hits.len() > 0 {
        return hits;
    }
    match policy.fallback {
        Fallback::All => names.clone(),
        Fallback::Nearest => {
            if names.len() == 0 {
                return Vec::new();
            }
            let k = nearest_name(&fold(query), names);
            let q2 = normalize(names[k].as_str(), policy.strip_digits);
            proof {
                assert(names.deep_view()[k as int] == names@[k as int]@);
            }
            filter_names(&q2, names, policy.strip_digits)
        },
    }
}

/// Searches the media files among `entries` for `query`: the listing of
/// `entries`, searched under `policy`.
pub fn search_entries(query: &str, entries: &Vec<Entry>, policy: MatchPolicy) -> (r: Vec<String>)
    ensures
        r.deep_view() == found(query@, listed(entries@), policy),
{
    let names = list_files(entries);
    find_files(query, &names, policy)
}

} // verus!
