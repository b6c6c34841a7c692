//! Ranking of candidates: match quality first, then the latest visit, then
//! the path itself.

use vstd::prelude::*;
use vstd::utf8::encode_utf8;
use crate::order::{
    bytes_less, bytes_lt, lemma_bytes_lt_asymmetric, lemma_bytes_lt_total,
    lemma_bytes_lt_transitive,
};
use crate::timestamp::Timestamp;

verus! {

/// What the fuzzy matcher makes of a candidate and a pattern: the quality of
/// the match, or none where the candidate does not match at all.
pub uninterp spec fn fuzzy_quality(choice: Seq<char>, pattern: Seq<char>) -> Option<i64>;

/// `ClangdMatcher::fuzzy_match` of a matcher in its default setting.
#[verifier::external_body]
fn fuzzy_match(choice: &str, pattern: &str) -> (quality: Option<i64>)
    ensures
        quality == fuzzy_quality(choice@, pattern@),
{
    fuzzy_matcher::FuzzyMatcher::fuzzy_match(
        &fuzzy_matcher::clangd::ClangdMatcher::default(),
        choice,
        pattern,
    )
}

/// The score that a match quality counts for: the quality itself, and zero
/// for a candidate that does not match.
pub open spec fn spec_score_of(quality: Option<i64>) -> i64 {
    match quality {
        Some(value) => value,
        None => 0,
    }
}

/// The score that a match quality counts for.
pub fn score_of(quality: Option<i64>) -> (score: i64)
    ensures
        score == spec_score_of(quality),
{
    match quality {
        Some(value) => value,
        None => 0,
    }
}

/// A candidate path with the quality of its match and, where it was looked
/// up, the time of its last visit.
#[derive(Debug, PartialEq, Eq)]
pub struct Score {
    pub score: i64,
    pub timestamp: Option<Timestamp>,
    pub path: String,
}

/// What the ranking reads of a candidate: its score, the rank of its last
/// visit, and its path as bytes.
pub struct Ranked {
    pub score: int,
    pub rank: int,
    pub key: Seq<u8>,
}

/// The rank of a visit time: a path without a recorded visit ranks below
/// every path that has one, and a later visit ranks higher.
pub open spec fn stamp_rank(timestamp: Option<Timestamp>) -> int {
    match timestamp {
        None => -1,
        Some(stamp) => stamp.total_nanos(),
    }
}

impl Ranked {
    /// `self` is the better candidate: it matches better, or as well and was
    /// visited later, or as well and as late and its path comes later.
    pub open spec fn outranks(self, other: Ranked) -> bool {
        ||| self.score > other.score
        ||| self.score == other.score && self.rank > other.rank
        ||| self.score == other.score && self.rank == other.rank && bytes_lt(other.key, self.key)
    }
}

/// `best` is one of the pool and no candidate of the pool outranks it.
pub open spec fn is_best(best: Ranked, pool: Seq<Ranked>) -> bool {
    pool.contains(best) && forall|i: int| 0 <= i < pool.len() ==> !(#[trigger] pool[i]).outranks(best)
}

impl View for Score {
    type V = Ranked;

    /// The candidate as the ranking reads it, with the visit time it carries.
    open spec fn view(&self) -> Ranked {
        Ranked {
            score: self.score as int,
            rank: stamp_rank(self.timestamp),
            key: encode_utf8(self.path@),
        }
    }
}

/// The candidates as the ranking reads them.
pub open spec fn ranked_all(pool: Seq<Score>) -> Seq<Ranked> {
    pool.map_values(|candidate: Score| candidate@)
}

impl Score {
    /// Whether `self` is the better candidate of the two.
    pub fn is_better_than(&self, other: &Score) -> (better: bool)
        ensures
            better == self@.outranks(other@),
    {
        if self.score != other.score {
            return self.score > other.score;
        }
        match (&self.timestamp, &other.timestamp) {
            (None, None) => bytes_less(other.path.as_str().as_bytes(), self.path.as_str().as_bytes()),
            (None, Some(_)) => false,
            (Some(_), None) => true,
            (Some(mine), Some(theirs)) => {
                if mine.is_after(theirs) {
                    true
                } else if theirs.is_after(mine) {
                    false
                } else {
                    bytes_less(other.path.as_str().as_bytes(), self.path.as_str().as_bytes())
                }
            },
        }
    }

    /// A second value with the same content.
    pub fn duplicate(&self) -> (copy: Score)
        ensures
            copy == *self,
    {
        Score { score: self.score, timestamp: self.timestamp, path: self.path.clone() }
    }
}

/// The score of a candidate path against a target.
pub open spec fn score_against(path: Seq<char>, target: Seq<char>) -> i64 {
    spec_score_of(fuzzy_quality(path, target))
}

/// Each result has become a candidate: in the same place, with the same
/// path, its score against the target, and no visit time yet.
pub open spec fn is_scoring(scores: Seq<Score>, results: Seq<String>, target: Seq<char>) -> bool {
    &&& scores.len() == results.len()
    &&& forall|i: int|
        0 <= i < scores.len() ==> {
            &&& (#[trigger] scores[i]).path == results[i]
            &&& scores[i].score == score_against(results[i]@, target)
            &&& scores[i].timestamp is None
        }
}

/// Scores every result against the target.
pub fn score_results(results: &Vec<String>, target: &str) -> (scores: Vec<Score>)
    ensures
        is_scoring(scores@, results@, target@),
{
    let mut scores: Vec<Score> = Vec::new();
    let mut at: usize = 0;
    while at < results.len()
        invariant
            at <= results.len(),
            is_scoring(scores@, results@.take(at as int), target@),
        decreases results.len() - at,
    {
        let item = &results[at];
        let quality = fuzzy_match(item.as_str(), target);
        scores.push(Score { path: item.clone(), score: score_of(quality), timestamp: None });
        at += 1;
    }
    assert(results@.take(at as int) =~= results@);
    scores
}

/// The candidate at place `top` scores strictly above every other of the
/// pool.
pub open spec fn is_alone_at_top(pool: Seq<Ranked>, top: int) -> bool {
    forall|j: int| 0 <= j < pool.len() && j != top ==> (#[trigger] pool[j]).score < pool[top].score
}

/// One candidate of the pool scores strictly above every other, so that the
/// score alone decides and no visit time need be asked for.
pub open spec fn single_top(pool: Seq<Ranked>) -> bool {
    exists|top: int| 0 <= top < pool.len() && #[trigger] is_alone_at_top(pool, top)
}

/// `max` is the score of one of the results and none has a higher one.
pub open spec fn is_max_score(max: i64, results: Seq<Score>) -> bool {
    &&& exists|i: int| 0 <= i < results.len() && (#[trigger] results[i]).score == max
    &&& forall|i: int| 0 <= i < results.len() ==> (#[trigger] results[i]).score <= max
}

/// The results whose score is `max`, in their order.
pub open spec fn tied_at(results: Seq<Score>, max: i64) -> Seq<Score> {
    results.filter(|candidate: Score| candidate.score == max)
}

/// The highest score among the results.
pub fn max_score(results: &Vec<Score>) -> (max: i64)
    requires
        results.len() > 0,
    ensures
        is_max_score(max, results@),
{
    let mut max = results[0].score;
    let mut at: usize = 1;
    while at < results.len()
        invariant
            1 <= at <= results.len(),
            exists|i: int| 0 <= i < at && (#[trigger] results@[i]).score == max,
            forall|i: int| 0 <= i < at ==> (#[trigger] results@[i]).score <= max,
        decreases results.len() - at,
    {
        if results[at].score > max {
            max = results[at].score;
        }
        at += 1;
    }
    max
}

/// Keeps the results whose score is `max` and drops the others.
pub fn retain_ties(results: &Vec<Score>, max: i64) -> (ties: Vec<Score>)
    ensures
        ties@ == tied_at(results@, max),
{
    let mut ties: Vec<Score> = Vec::new();
    let mut at: usize = 0;
    proof {
        reveal(Seq::filter);
        assert(results@.take(0) =~= Seq::<Score>::empty());
    }
    while at < results.len()
        invariant
            at <= results.len(),
            ties@ == tied_at(results@.take(at as int), max),
        decreases results.len() - at,
    {
        proof {
            reveal(Seq::filter);
            assert(results@.take(at + 1).drop_last() =~= results@.take(at as int));
            assert(results@.take(at + 1).last() == results@[at as int]);
        }
        if results[at].score == max {
            ties.push(results[at].duplicate());
        }
        at += 1;
    }
    assert(results@.take(at as int) =~= results@);
    ties
}

/// Picks the candidate that no other outranks, each read with the visit time
/// it carries; none when there is no candidate.
pub fn pick_best(pool: Vec<Score>) -> (best: Option<Score>)
    ensures
        pool.len() == 0 <==> best is None,
        best matches Some(winner) ==> pool@.contains(winner) && is_best(
            winner@,
            ranked_all(pool@),
        ),
{
    if pool.len() == 0 {
        return None;
    }
    let mut pool = pool;
    let ghost all = pool@;
    let mut lead: usize = 0;
    let mut at: usize = 1;
    proof {
        lemma_outranks_irreflexive(pool@[0]@);
    }
    while at < pool.len()
        invariant
            pool@ == all,
            lead < at <= pool.len(),
            forall|i: int| 0 <= i < at ==> !(#[trigger] pool@[i])@.outranks(pool@[lead as int]@),
        decreases pool.len() - at,
    {
        if pool[at].is_better_than(&pool[lead]) {
            proof {
                let old_lead = pool@[lead as int]@;
                let new_lead = pool@[at as int]@;
                lemma_outranks_irreflexive(new_lead);
                assert forall|i: int| 0 <= i < at + 1 implies !(#[trigger] pool@[i])@.outranks(
                    new_lead,
                ) by {
                    if i < at && pool@[i]@.outranks(new_lead) {
                        lemma_outranks_transitive(pool@[i]@, new_lead, old_lead);
                    }
                }
            }
            lead = at;
        }
        at += 1;
    }
    let winner = pool.swap_remove(lead);
    proof {
        assert(all[lead as int] == winner);
        assert(ranked_all(all)[lead as int] == winner@);
        assert forall|i: int| 0 <= i < ranked_all(all).len() implies !(#[trigger] ranked_all(
            all,
        )[i]).outranks(winner@) by {
            assert(ranked_all(all)[i] == all[i]@);
        }
    }
    Some(winner)
}

/// No candidate outranks itself.
pub proof fn lemma_outranks_irreflexive(a: Ranked)
    ensures
        !a.outranks(a),
{
    lemma_bytes_lt_asymmetric(a.key, a.key);
}

/// A candidate that outranks one which outranks a third outranks the third.
pub proof fn lemma_outranks_transitive(a: Ranked, b: Ranked, c: Ranked)
    requires
        a.outranks(b),
        b.outranks(c),
    ensures
        a.outranks(c),
{
    if a.score == b.score && b.score == c.score && a.rank == b.rank && b.rank == c.rank {
        lemma_bytes_lt_transitive(c.key, b.key, a.key);
    }
}

/// The best of a pool is unique: two candidates that are both best are the
/// same candidate.
pub proof fn lemma_best_is_unique(first: Ranked, second: Ranked, pool: Seq<Ranked>)
    requires
        is_best(first, pool),
        is_best(second, pool),
    ensures
        first == second,
{
    let i = choose|i: int| 0 <= i < pool.len() && pool[i] == first;
    let j = choose|j: int| 0 <= j < pool.len() && pool[j] == second;
    assert(!pool[i].outranks(second));
    assert(!pool[j].outranks(first));
    lemma_bytes_lt_total(first.key, second.key);
}

/// Of two candidates that match equally well, the one visited later wins: the
/// other one is never picked.
pub proof fn lemma_later_visit_wins(best: Ranked, pool: Seq<Ranked>, later: Ranked, earlier: Ranked)
    requires
        is_best(best, pool),
        pool.contains(later),
        later.score == earlier.score,
        later.rank > earlier.rank,
    ensures
        best != earlier,
{
    let i = choose|i: int| 0 <= i < pool.len() && pool[i] == later;
    assert(!pool[i].outranks(best));
}

/// The best of a pool has the highest score of the pool.
pub proof fn lemma_best_has_top_score(best: Ranked, pool: Seq<Ranked>)
    requires
        is_best(best, pool),
    ensures
        forall|i: int| 0 <= i < pool.len() ==> (#[trigger] pool[i]).score <= best.score,
{
    assert forall|i: int| 0 <= i < pool.len() implies (#[trigger] pool[i]).score
        <= best.score by {
        assert(!pool[i].outranks(best));
    }
}

} // verus!
