//! Ranking of the store against a query: every entry gets a fuzzy-match score
//! for its search text, entries with a positive score are kept, and the higher
//! score comes first.

use crate::sort::{comes_before, sort_scored, Scored};
use crate::ucd::{fmt_codepoint_spec, CharEntry, EntryView};
use rayon::iter::{IntoParallelRefIterator, ParallelIterator};
use vstd::prelude::*;

verus! {

/// The score that `fuzzy_matcher::clangd::fuzzy_match` gives the pattern in
/// the text `choice`, or `None` where it finds no match.
pub uninterp spec fn fuzzy_score(choice: Seq<char>, pattern: Seq<char>) -> Option<i64>;

/// `fuzzy_matcher::clangd::fuzzy_match`: the score of `pattern` in `choice`.
/// The matcher is made anew for each call and ignores case; what it returns
/// depends on the two texts alone, and the contract gives that result its name
/// and claims nothing more of it.
#[verifier::external_body]
fn fuzzy_match(choice: &str, pattern: &str) -> (score: Option<i64>)
    ensures
        score == fuzzy_score(choice@, pattern@),
{
    fuzzy_matcher::clangd::fuzzy_match(choice, pattern)
}

/// The text of an entry that a query is matched against: its code point in
/// the `U+` notation, its name and its legacy name, with one space between
/// them.
pub open spec fn search_text_spec(entry: EntryView) -> Seq<char> {
    fmt_codepoint_spec(entry.codepoint) + seq![' '] + entry.name + seq![' '] + entry.unicode_1_name
}

/// The score of `entry` for `query`.
pub open spec fn entry_score(entry: EntryView, query: Seq<char>) -> Option<i64> {
    fuzzy_score(search_text_spec(entry), query)
}

/// The scores of all entries of `store` for `query`, in the order of the store.
pub open spec fn scores_of(store: Seq<CharEntry>, query: Seq<char>) -> Seq<Option<i64>> {
    Seq::new(store.len(), |i: int| entry_score(store[i]@, query))
}

/// Whether `score` is a match with a positive score.
pub open spec fn is_positive(score: Option<i64>) -> bool {
    match score {
        Some(value) => value > 0,
        None => false,
    }
}

/// The score at position `i`, where no match counts as zero.
pub open spec fn score_at(scores: Seq<Option<i64>>, i: int) -> int {
    match scores[i] {
        Some(score) => score as int,
        None => 0,
    }
}

/// Whether position `i` is a hit: it has a score, and the score is positive.
pub open spec fn is_hit(scores: Seq<Option<i64>>, i: int) -> bool {
    0 <= i < scores.len() && score_at(scores, i) > 0
}

/// Whether position `i` is listed before position `j`: it has the higher
/// score, or the same score and stands later in the store.
pub open spec fn outranks(scores: Seq<Option<i64>>, i: int, j: int) -> bool {
    score_at(scores, i) > score_at(scores, j) || (score_at(scores, i) == score_at(scores, j) && i
        > j)
}

/// Whether each position of `order` outranks all that follow it.
pub open spec fn is_ranked(scores: Seq<Option<i64>>, order: Seq<int>) -> bool {
    forall|a: int, b: int|
        0 <= a < b < order.len() ==> outranks(scores, #[trigger] order[a], #[trigger] order[b])
}

/// Whether `order` is the ranking of `scores`: it lists hits only, it lists
/// every hit, and each position it lists outranks all that follow.
pub open spec fn is_ranking(scores: Seq<Option<i64>>, order: Seq<int>) -> bool {
    &&& forall|k: int| 0 <= k < order.len() ==> is_hit(scores, #[trigger] order[k])
    &&& forall|i: int| is_hit(scores, i) ==> order.contains(i)
    &&& is_ranked(scores, order)
}

/// The ranking of `scores`: the positions with a positive score, the highest
/// score first and, among equal scores, the later position first.
pub open spec fn ranking(scores: Seq<Option<i64>>) -> Seq<int> {
    choose|order: Seq<int>| is_ranking(scores, order)
}

/// The positions of the store that are shown for `query`, in the order shown:
/// the whole store in its own order for the empty query, else the ranking of
/// the entries' scores.
pub open spec fn ranked_indices(store: Seq<CharEntry>, query: Seq<char>) -> Seq<int> {
    if query.len() == 0 {
        Seq::new(store.len(), |i: int| i)
    } else {
        ranking(scores_of(store, query))
    }
}

/// The entries of the store that are shown for `query`, in the order shown.
pub open spec fn rank(store: Seq<CharEntry>, query: Seq<char>) -> Seq<CharEntry> {
    Seq::new(ranked_indices(store, query).len(), |k: int| store[ranked_indices(store, query)[k]])
}

/// The positions held in a vector, as integers.
pub open spec fn as_ints(positions: Seq<usize>) -> Seq<int> {
    Seq::new(positions.len(), |k: int| positions[k] as int)
}

/// Two orders that hold the same positions and are both ranked are one and
/// the same order.
proof fn lemma_ranked_unique(scores: Seq<Option<i64>>, a: Seq<int>, b: Seq<int>)
    requires
        is_ranked(scores, a),
        is_ranked(scores, b),
        forall|x: int| a.contains(x) <==> b.contains(x),
    ensures
        a == b,
    decreases a.len(),
{
    if a.len() == 0 {
        if b.len() > 0 {
            assert(b.contains(b[0]));
        }
        assert(a =~= b);
    } else if b.len() == 0 {
        assert(a.contains(a[0]));
    } else {
        assert(a.contains(a[0]));
        assert(b.contains(b[0]));
        let j = choose|j: int| 0 <= j < b.len() && b[j] == a[0];
        let i = choose|i: int| 0 <= i < a.len() && a[i] == b[0];
        if i > 0 {
            assert(outranks(scores, a[0], a[i]));
            if j > 0 {
                assert(outranks(scores, b[0], b[j]));
            }
        }
        assert(a[0] == b[0]);
        let ta = a.drop_first();
        let tb = b.drop_first();
        assert forall|x: int| ta.contains(x) <==> tb.contains(x) by {
            if ta.contains(x) {
                let k = choose|k: int| 0 <= k < ta.len() && ta[k] == x;
                assert(a[k + 1] == x);
                assert(outranks(scores, a[0], a[k + 1]));
                assert(a.contains(x));
                let m = choose|m: int| 0 <= m < b.len() && b[m] == x;
                assert(tb[m - 1] == x);
            }
            if tb.contains(x) {
                let k = choose|k: int| 0 <= k < tb.len() && tb[k] == x;
                assert(b[k + 1] == x);
                assert(outranks(scores, b[0], b[k + 1]));
                assert(b.contains(x));
                let m = choose|m: int| 0 <= m < a.len() && a[m] == x;
                assert(ta[m - 1] == x);
            }
        }
        assert forall|p: int, q: int| 0 <= p < q < ta.len() implies outranks(
            scores,
            #[trigger] ta[p],
            #[trigger] ta[q],
        ) by {
            assert(outranks(scores, a[p + 1], a[q + 1]));
        }
        assert forall|p: int, q: int| 0 <= p < q < tb.len() implies outranks(
            scores,
            #[trigger] tb[p],
            #[trigger] tb[q],
        ) by {
            assert(outranks(scores, b[p + 1], b[q + 1]));
        }
        lemma_ranked_unique(scores, ta, tb);
        assert(a =~= seq![a[0]] + ta);
        assert(b =~= seq![b[0]] + tb);
    }
}

/// Ranking is determined by the scores: any two rankings of the same scores
/// are equal. Ranking the same store for the same query a second time
/// therefore lists the same entries in the same order.
pub proof fn lemma_ranking_unique(scores: Seq<Option<i64>>, a: Seq<int>, b: Seq<int>)
    requires
        is_ranking(scores, a),
        is_ranking(scores, b),
    ensures
        a == b,
{
    assert forall|x: int| a.contains(x) <==> b.contains(x) by {
        if a.contains(x) {
            let k = choose|k: int| 0 <= k < a.len() && a[k] == x;
            assert(is_hit(scores, a[k]));
        }
        if b.contains(x) {
            let k = choose|k: int| 0 <= k < b.len() && b[k] == x;
            assert(is_hit(scores, b[k]));
        }
    }
    lemma_ranked_unique(scores, a, b);
}

/// Whether `order` is the ranking of the first `n` positions of `scores`.
spec fn is_ranking_below(scores: Seq<Option<i64>>, n: int, order: Seq<int>) -> bool {
    &&& forall|k: int|
        0 <= k < order.len() ==> is_hit(scores, #[trigger] order[k]) && order[k] < n
    &&& forall|i: int| is_hit(scores, i) && i < n ==> order.contains(i)
    &&& is_ranked(scores, order)
}

/// Where a new position with score `score` goes in a ranked order: behind
/// the positions with a higher score and in front of all others.
proof fn lemma_slot(scores: Seq<Option<i64>>, order: Seq<int>, score: int) -> (p: int)
    requires
        is_ranked(scores, order),
    ensures
        0 <= p <= order.len(),
        forall|k: int| 0 <= k < p ==> score_at(scores, #[trigger] order[k]) > score,
        forall|k: int| p <= k < order.len() ==> score_at(scores, #[trigger] order[k]) <= score,
    decreases order.len(),
{
    if order.len() == 0 {
        0
    } else if score_at(scores, order.last()) > score {
        assert forall|k: int| 0 <= k < order.len() implies score_at(scores, #[trigger] order[k])
            > score by {
            if k < order.len() - 1 {
                assert(outranks(scores, order[k], order[order.len() - 1]));
            }
        }
        order.len() as int
    } else {
        let init = order.drop_last();
        assert forall|a: int, b: int| 0 <= a < b < init.len() implies outranks(
            scores,
            #[trigger] init[a],
            #[trigger] init[b],
        ) by {
            assert(outranks(scores, order[a], order[b]));
        }
        let p = lemma_slot(scores, init, score);
        assert forall|k: int| 0 <= k < p implies score_at(scores, #[trigger] order[k]) > score by {
            assert(order[k] == init[k]);
        }
        assert forall|k: int| p <= k < order.len() implies score_at(scores, #[trigger] order[k])
            <= score by {
            if k < init.len() {
                assert(order[k] == init[k]);
            }
        }
        p
    }
}

proof fn lemma_ranking_below(scores: Seq<Option<i64>>, n: int) -> (order: Seq<int>)
    requires
        0 <= n <= scores.len(),
    ensures
        is_ranking_below(scores, n, order),
    decreases n,
{
    if n == 0 {
        Seq::<int>::empty()
    } else {
        let prev = lemma_ranking_below(scores, n - 1);
        let new = n - 1;
        if !is_hit(scores, new) {
            prev
        } else {
            let p = lemma_slot(scores, prev, score_at(scores, new));
            let order = prev.insert(p, new);
            assert(order.len() == prev.len() + 1);
            assert(order[p] == new);
            assert forall|k: int| 0 <= k < order.len() implies is_hit(scores, #[trigger] order[k])
                && order[k] < n by {
                if k < p {
                    assert(order[k] == prev[k]);
                } else if k > p {
                    assert(order[k] == prev[k - 1]);
                }
            }
            assert forall|i: int| is_hit(scores, i) && i < n implies order.contains(i) by {
                if i == new {
                    assert(order[p] == i);
                } else {
                    assert(prev.contains(i));
                    let k = choose|k: int| 0 <= k < prev.len() && prev[k] == i;
                    if k < p {
                        assert(order[k] == i);
                    } else {
                        assert(order[k + 1] == i);
                    }
                }
            }
            assert forall|a: int, b: int| 0 <= a < b < order.len() implies outranks(
                scores,
                #[trigger] order[a],
                #[trigger] order[b],
            ) by {
                let ia = if a < p { a } else { a - 1 };
                let ib = if b < p { b } else { b - 1 };
                if a != p {
                    assert(order[a] == prev[ia]);
                }
                if b != p {
                    assert(order[b] == prev[ib]);
                }
                if a != p && b != p {
                    assert(outranks(scores, prev[ia], prev[ib]));
                }
            }
            order
        }
    }
}

/// Every sequence of scores has a ranking, and `ranking` is it: it lists
/// exactly the positions with a positive score, each before all those it
/// outranks.
pub proof fn lemma_ranking_is_ranking(scores: Seq<Option<i64>>)
    ensures
        is_ranking(scores, ranking(scores)),
{
    let order = lemma_ranking_below(scores, scores.len() as int);
    assert(is_ranking(scores, order));
}

/// No false positives and none left out: for a query that is not empty, the
/// entries listed are exactly those with a positive score for it. Each entry
/// of `rank(store, query)` has a positive score, and each position of the
/// store whose entry has one is among the positions listed.
pub proof fn lemma_rank_positive(store: Seq<CharEntry>, query: Seq<char>)
    requires
        query.len() > 0,
    ensures
        forall|k: int|
            0 <= k < rank(store, query).len() ==> is_positive(
                #[trigger] entry_score(rank(store, query)[k]@, query),
            ),
        forall|i: int|
            0 <= i < store.len() && is_positive(#[trigger] entry_score(store[i]@, query))
                ==> ranked_indices(store, query).contains(i),
{
    let scores = scores_of(store, query);
    lemma_ranking_is_ranking(scores);
    let order = ranking(scores);
    assert forall|k: int| 0 <= k < rank(store, query).len() implies is_positive(
        #[trigger] entry_score(rank(store, query)[k]@, query),
    ) by {
        assert(is_hit(scores, order[k]));
    }
    assert forall|i: int|
        0 <= i < store.len() && is_positive(
            #[trigger] entry_score(store[i]@, query),
        ) implies ranked_indices(store, query).contains(i) by {
        assert(is_hit(scores, i));
    }
}

/// The listing is in descending order of score, and entries with the same
/// score are listed in the reverse of their order in the store.
pub proof fn lemma_rank_order(store: Seq<CharEntry>, query: Seq<char>, a: int, b: int)
    requires
        query.len() > 0,
        0 <= a < b < ranked_indices(store, query).len(),
    ensures
        outranks(
            scores_of(store, query),
            ranked_indices(store, query)[a],
            ranked_indices(store, query)[b],
        ),
{
    lemma_ranking_is_ranking(scores_of(store, query));
}

/// For the empty query the listing is the store itself, in its own order.
pub proof fn lemma_rank_empty_query(store: Seq<CharEntry>)
    ensures
        rank(store, Seq::<char>::empty()) == store,
{
    assert(rank(store, Seq::<char>::empty()) =~= store);
}

/// The text of `entry` that queries are matched against.
pub fn search_text(entry: &CharEntry) -> (text: String)
    ensures
        text@ == search_text_spec(entry@),
{
    let mut text = CharEntry::fmt_codepoint(entry.codepoint);
    text.push(' ');
    text.append(entry.name.as_str());
    text.push(' ');
    text.append(entry.unicode_1_name.as_str());
    assert(text@ =~= search_text_spec(entry@));
    text
}

/// The score of `entry` for the query `filter`.
pub fn score_entry(entry: &CharEntry, filter: &str) -> (score: Option<i64>)
    ensures
        score == entry_score(entry@, filter@),
{
    let text = search_text(entry);
    fuzzy_match(text.as_str(), filter)
}

/// rayon's `par_iter`, `map` and `collect` on a slice: `score_entry` is
/// applied to every entry, on the threads of rayon's pool, and the vector
/// collected holds the results in the order of the entries.
#[verifier::external_body]
fn score_all(data: &[CharEntry], filter: &str) -> (scores: Vec<Option<i64>>)
    ensures
        scores@ == scores_of(data@, filter@),
{
    data.par_iter().map(|entry| score_entry(entry, filter)).collect()
}

/// Ranks positions by their scores. The result lists the positions whose
/// score is positive and no others, the highest score first; positions with
/// the same score are listed in the reverse of their order in `scores`.
pub fn rank_scores(scores: &[Option<i64>]) -> (order: Vec<usize>)
    ensures
        as_ints(order@) == ranking(scores@),
        is_ranking(scores@, as_ints(order@)),
{
    let mut hits: Vec<Scored> = Vec::new();
    let mut i: usize = 0;
    while i < scores.len()
        invariant
            i <= scores@.len(),
            forall|k: int|
                0 <= k < hits@.len() ==> {
                    &&& is_hit(scores@, (#[trigger] hits@[k]).1 as int)
                    &&& hits@[k].1 < i
                    &&& hits@[k].0 == score_at(scores@, hits@[k].1 as int)
                },
            forall|a: int, b: int|
                0 <= a < b < hits@.len() ==> (#[trigger] hits@[a]).1 < (#[trigger] hits@[b]).1,
            forall|p: int|
                is_hit(scores@, p) && p < i ==> exists|k: int|
                    0 <= k < hits@.len() && (#[trigger] hits@[k]).1 == p,
        decreases scores@.len() - i,
    {
        let ghost before = hits@;
        match scores[i] {
            Some(score) => {
                if score > 0 {
                    hits.push((score, i));
                    assert forall|p: int| is_hit(scores@, p) && p < i + 1 implies exists|k: int|
                        0 <= k < hits@.len() && (#[trigger] hits@[k]).1 == p by {
                        if p < i {
                            let k = choose|k: int|
                                0 <= k < before.len() && (#[trigger] before[k]).1 == p;
                            assert(hits@[k].1 == p);
                        } else {
                            assert(hits@[before.len() as int].1 == p);
                        }
                    }
                }
            },
            None => {},
        }
        i += 1;
    }
    let sorted = sort_scored(&hits);
    let mut order: Vec<usize> = Vec::new();
    let mut k: usize = 0;
    while k < sorted.len()
        invariant
            k <= sorted@.len(),
            order@.len() == k,
            forall|m: int| 0 <= m < k ==> (#[trigger] order@[m]) == sorted@[m].1,
        decreases sorted@.len() - k,
    {
        order.push(sorted[k].1);
        k += 1;
    }
    proof {
        let listed = as_ints(order@);
        assert forall|m: int| 0 <= m < sorted@.len() implies {
            &&& is_hit(scores@, (#[trigger] sorted@[m]).1 as int)
            &&& sorted@[m].0 == score_at(scores@, sorted@[m].1 as int)
        } by {
            assert(sorted@.contains(sorted@[m]));
            assert(hits@.contains(sorted@[m]));
        }
        assert forall|m: int| 0 <= m < listed.len() implies is_hit(scores@, #[trigger] listed[m]) by {
            assert(listed[m] == sorted@[m].1);
        }
        assert forall|p: int| is_hit(scores@, p) implies listed.contains(p) by {
            let h = choose|h: int| 0 <= h < hits@.len() && (#[trigger] hits@[h]).1 == p;
            assert(hits@.contains(hits@[h]));
            assert(sorted@.contains(hits@[h]));
            let m = choose|m: int| 0 <= m < sorted@.len() && sorted@[m] == hits@[h];
            assert(listed[m] == p);
        }
        assert forall|a: int, b: int| 0 <= a < b < listed.len() implies outranks(
            scores@,
            #[trigger] listed[a],
            #[trigger] listed[b],
        ) by {
            assert(comes_before(sorted@[a], sorted@[b]));
            assert(listed[a] == sorted@[a].1);
            assert(listed[b] == sorted@[b].1);
        }
        lemma_ranking_is_ranking(scores@);
        lemma_ranking_unique(scores@, listed, ranking(scores@));
    }
    order
}

/// The entries of `data` that are shown for the query `filter`, in the order
/// shown. For the empty query these are all entries in the order of `data`.
/// For any other query they are the entries with a positive score, the
/// highest score first; entries with the same score come in the reverse of
/// their order in `data`.
pub fn prune<'a>(data: &'a [CharEntry], filter: &str) -> (shown: Vec<&'a CharEntry>)
    ensures
        shown@.len() == rank(data@, filter@).len(),
        forall|k: int| 0 <= k < shown@.len() ==> *(#[trigger] shown@[k]) == rank(data@, filter@)[k],
{
    let mut shown: Vec<&'a CharEntry> = Vec::new();
    if filter.is_empty() {
        let mut i: usize = 0;
        while i < data.len()
            invariant
                i <= data@.len(),
                filter@.len() == 0,
                shown@.len() == i,
                forall|k: int| 0 <= k < i ==> *(#[trigger] shown@[k]) == data@[k],
            decreases data@.len() - i,
        {
            shown.push(&data[i]);
            i += 1;
        }
        return shown;
    }
    let scores = score_all(data, filter);
    let order = rank_scores(scores.as_slice());
    let mut k: usize = 0;
    while k < order.len()
        invariant
            k <= order@.len(),
            filter@.len() > 0,
            scores@ == scores_of(data@, filter@),
            as_ints(order@) == ranking(scores@),
            is_ranking(scores@, as_ints(order@)),
            shown@.len() == k,
            forall|m: int| 0 <= m < k ==> *(#[trigger] shown@[m]) == rank(data@, filter@)[m],
        decreases order@.len() - k,
    {
        let at: usize = order[k];
        assert(as_ints(order@)[k as int] == at);
        assert(is_hit(scores@, as_ints(order@)[k as int]));
        shown.push(&data[at]);
        k += 1;
    }
    assert(as_ints(order@).len() == order@.len());
    shown
}

} // verus!
