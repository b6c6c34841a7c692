//! What an index holds, seen as plain mathematics: the ledger as a map, the
//! members as a listing, and what the stored image stands for. The engine's operations are relations
//! between two such states, and what holds of every run of the engine is
//! proved here from those relations.

use vstd::prelude::*;
use vstd::utf8::{decode_utf8, encode_utf8, valid_utf8};
use crate::matcher::query_accepts;
use crate::membership::{image_keys, is_difference, is_union, lemma_remove_undoes_merge};
use crate::order::{ascending, lemma_filter_keeps_none};
use crate::score::{
    is_best, lemma_later_visit_wins, score_against, stamp_rank, Ranked, Score,
};
use crate::store::lookup;
use crate::timestamp::Timestamp;

verus! {

/// How a delta set is worked into the membership set.
#[derive(Clone, Copy, Debug, PartialEq, Eq, Structural)]
pub enum Combinator {
    /// The new set holds the keys of both.
    Union,
    /// The new set holds the keys of the old set that the delta lacks.
    Difference,
}

/// What an index holds: the ledger, the paths that can be searched, and the
/// paths that the image in the store stands for.
pub struct IndexState {
    /// The stored visit time of each known path.
    pub ledger: Map<Seq<u8>, Seq<u8>>,
    /// The paths of the membership set that searches run against.
    pub members: Seq<Seq<u8>>,
    /// The paths of the membership image as the store holds it.
    pub stored: Seq<Seq<u8>>,
}

impl IndexState {
    /// The paths that can be searched are the paths of the ledger.
    pub open spec fn consistent(self) -> bool {
        self.members.to_set() == self.ledger.dom()
    }

    /// The image in the store stands for the paths that can be searched.
    pub open spec fn persisted(self) -> bool {
        self.stored == self.members
    }
}

/// The paths that the stored image stands for; none where nothing is stored.
pub open spec fn members_of(image: Option<Seq<u8>>) -> Seq<Seq<u8>> {
    match image {
        Some(bytes) => image_keys(bytes),
        None => Seq::empty(),
    }
}

/// Whether a write to the ledger calls for a rebuild of the members: a visit
/// does where the ledger did not know the path, a deletion does where it
/// did.
pub open spec fn needs_rebuild(op: Combinator, known: bool) -> bool {
    match op {
        Combinator::Union => !known,
        Combinator::Difference => known,
    }
}

/// `after` is `before` with the members rebuilt from a one-key delta and the
/// image of the new members stored. The ledger is as it was.
pub open spec fn rebuilt(
    before: IndexState,
    key: Seq<u8>,
    op: Combinator,
    after: IndexState,
) -> bool {
    &&& after.ledger == before.ledger
    &&& after.stored == after.members
    &&& match op {
        Combinator::Union => is_union(after.members, before.members, seq![key]),
        Combinator::Difference => is_difference(after.members, before.members, seq![key]),
    }
}

/// `after` is `before` with a visit of `key` recorded as `stamp`: the ledger
/// has the new stamp, and a key that is new to the ledger has joined the
/// members. For a key that the ledger knew, nothing but its stamp changes.
pub open spec fn added(before: IndexState, key: Seq<u8>, stamp: Seq<u8>, after: IndexState) -> bool {
    &&& after.ledger == before.ledger.insert(key, stamp)
    &&& if before.ledger.contains_key(key) {
        after.members == before.members && after.stored == before.stored
    } else {
        is_union(after.members, before.members, seq![key]) && after.stored == after.members
    }
}

/// `after` is `before` without `key`: it has left the ledger and, if the
/// ledger had it, the members too. For a key that the ledger did not know,
/// nothing changes.
pub open spec fn deleted(before: IndexState, key: Seq<u8>, after: IndexState) -> bool {
    &&& after.ledger == before.ledger.remove(key)
    &&& if before.ledger.contains_key(key) {
        is_difference(after.members, before.members, seq![key]) && after.stored == after.members
    } else {
        after.members == before.members && after.stored == before.stored
    }
}

/// The visit time that the ledger records for a key; none where it has no
/// entry or the entry is no stored timestamp.
pub open spec fn recorded(ledger: Map<Seq<u8>, Seq<u8>>, key: Seq<u8>) -> Option<Timestamp> {
    match lookup(ledger, key) {
        Some(bytes) => Timestamp::spec_decode(bytes),
        None => None,
    }
}

/// A candidate as the ranking reads it when its visit time is the one that
/// the ledger records.
pub open spec fn by_ledger(candidate: Score, ledger: Map<Seq<u8>, Seq<u8>>) -> Ranked {
    Ranked {
        score: candidate.score as int,
        rank: stamp_rank(recorded(ledger, candidate@.key)),
        key: candidate@.key,
    }
}

/// The candidates, each with the visit time that the ledger records.
pub open spec fn ranked_by_ledger(
    results: Seq<Score>,
    ledger: Map<Seq<u8>, Seq<u8>>,
) -> Seq<Ranked> {
    results.map_values(|candidate: Score| by_ledger(candidate, ledger))
}

/// The members that the query for `target` accepts, in their order.
pub open spec fn candidates(
    members: Seq<Seq<u8>>,
    target: Seq<char>,
    exclude: Option<Seq<char>>,
) -> Seq<Seq<u8>> {
    members.filter(|key: Seq<u8>| query_accepts(target, exclude, key))
}

/// Every member that the query for `target` accepts can be read as a path.
pub open spec fn matches_are_text(
    members: Seq<Seq<u8>>,
    target: Seq<char>,
    exclude: Option<Seq<char>>,
) -> bool {
    forall|i: int|
        0 <= i < members.len() && query_accepts(target, exclude, #[trigger] members[i])
            ==> valid_utf8(members[i])
}

/// A member as the ranking reads it: scored against the target, with the
/// visit time that the ledger records.
pub open spec fn candidate_of(
    ledger: Map<Seq<u8>, Seq<u8>>,
    target: Seq<char>,
    key: Seq<u8>,
) -> Ranked {
    Ranked {
        score: score_against(decode_utf8(key), target) as int,
        rank: stamp_rank(recorded(ledger, key)),
        key,
    }
}

/// The members that the query for `target` accepts, each as the ranking
/// reads it.
pub open spec fn ranked_candidates(
    state: IndexState,
    target: Seq<char>,
    exclude: Option<Seq<char>>,
) -> Seq<Ranked> {
    candidates(state.members, target, exclude).map_values(
        |key: Seq<u8>| candidate_of(state.ledger, target, key),
    )
}

/// `found` is the answer of a search for `target` in `state`: nothing for an
/// empty target or where no member matches; else the member that is best
/// among those that match.
pub open spec fn is_answer(
    state: IndexState,
    target: Seq<char>,
    exclude: Option<Seq<char>>,
    found: Option<Seq<char>>,
) -> bool {
    if target.len() == 0 {
        found is None
    } else {
        match found {
            None => candidates(state.members, target, exclude).len() == 0,
            Some(path) => is_best(
                candidate_of(state.ledger, target, encode_utf8(path)),
                ranked_candidates(state, target, exclude),
            ),
        }
    }
}

/// Adding a path keeps the members in step with the ledger.
pub proof fn lemma_add_keeps_consistent(
    before: IndexState,
    key: Seq<u8>,
    stamp: Seq<u8>,
    after: IndexState,
)
    requires
        before.consistent(),
        added(before, key, stamp, after),
    ensures
        after.consistent(),
{
    assert(seq![key].to_set() =~= set![key]) by {
        assert(seq![key][0] == key);
        assert forall|other: Seq<u8>| seq![key].to_set().contains(other) implies other == key by {
            assert(seq![key].contains(other));
        }
    }
    assert(after.members.to_set() =~= after.ledger.dom());
}

/// Deleting a path keeps the members in step with the ledger.
pub proof fn lemma_delete_keeps_consistent(before: IndexState, key: Seq<u8>, after: IndexState)
    requires
        before.consistent(),
        deleted(before, key, after),
    ensures
        after.consistent(),
{
    assert(seq![key].to_set() =~= set![key]) by {
        assert(seq![key][0] == key);
        assert forall|other: Seq<u8>| seq![key].to_set().contains(other) implies other == key by {
            assert(seq![key].contains(other));
        }
    }
    assert(after.members.to_set() =~= after.ledger.dom());
}

/// Adding a path a second time changes the time recorded for it and nothing
/// else: the ledger knows the same paths and the members are the same.
pub proof fn lemma_repeated_add(
    start: IndexState,
    key: Seq<u8>,
    first: Seq<u8>,
    between: IndexState,
    second: Seq<u8>,
    end: IndexState,
)
    requires
        added(start, key, first, between),
        added(between, key, second, end),
    ensures
        end.members == between.members,
        end.ledger.dom() == between.ledger.dom(),
        end.ledger[key] == second,
        forall|other: Seq<u8>| other != key ==> lookup(end.ledger, other) == lookup(
            between.ledger,
            other,
        ),
{
    assert(end.ledger.dom() =~= between.ledger.dom());
}

/// Adding or deleting a path keeps the stored image in step with the
/// members.
pub proof fn lemma_writes_keep_persisted(
    before: IndexState,
    key: Seq<u8>,
    stamp: Seq<u8>,
    after: IndexState,
)
    requires
        before.persisted(),
        added(before, key, stamp, after) || deleted(before, key, after),
    ensures
        after.persisted(),
{
}

/// Deleting a path that was added to an index which did not know it gives
/// the index back as it was.
pub proof fn lemma_delete_undoes_add(
    start: IndexState,
    key: Seq<u8>,
    stamp: Seq<u8>,
    between: IndexState,
    end: IndexState,
)
    requires
        ascending(start.members),
        start.consistent(),
        start.persisted(),
        !start.ledger.contains_key(key),
        added(start, key, stamp, between),
        deleted(between, key, end),
    ensures
        end == start,
{
    assert(end.ledger =~= start.ledger);
    assert(start.members.to_set().contains(key) == start.members.contains(key));
    lemma_remove_undoes_merge(start.members, key, between.members, end.members);
}

/// Adding a path that the ledger knows changes the time recorded for it and
/// nothing else: the ledger knows the same paths, every other path has the
/// time it had, and the members and the stored image are as they were.
pub proof fn lemma_known_add_changes_the_time_only(
    before: IndexState,
    key: Seq<u8>,
    stamp: Seq<u8>,
    after: IndexState,
)
    requires
        before.ledger.contains_key(key),
        added(before, key, stamp, after),
    ensures
        after.ledger[key] == stamp,
        after.ledger.dom() == before.ledger.dom(),
        forall|other: Seq<u8>|
            other != key ==> lookup(after.ledger, other) == lookup(before.ledger, other),
        after.members == before.members,
        after.stored == before.stored,
{
    assert(after.ledger.dom() =~= before.ledger.dom());
}

/// Deleting a path that the ledger does not know changes nothing.
pub proof fn lemma_delete_unknown(before: IndexState, key: Seq<u8>, after: IndexState)
    requires
        !before.ledger.contains_key(key),
        deleted(before, key, after),
    ensures
        after == before,
{
    assert(after.ledger =~= before.ledger);
}

/// After a path was deleted neither the ledger nor, where the two were in
/// step, the members hold it.
pub proof fn lemma_deleted_is_gone(before: IndexState, key: Seq<u8>, after: IndexState)
    requires
        before.consistent(),
        deleted(before, key, after),
    ensures
        !after.ledger.contains_key(key),
        !after.members.contains(key),
{
    lemma_delete_keeps_consistent(before, key, after);
    assert(after.members.to_set().contains(key) == after.members.contains(key));
}

/// A search finds exactly the members that its query accepts: each of them,
/// none else, and none twice where the members hold none twice.
pub proof fn lemma_candidates_are_exact(
    members: Seq<Seq<u8>>,
    target: Seq<char>,
    exclude: Option<Seq<char>>,
    key: Seq<u8>,
)
    ensures
        candidates(members, target, exclude).contains(key) <==> members.contains(key)
            && query_accepts(target, exclude, key),
        candidates(members, target, exclude).to_set() == members.to_set().filter(
            |member: Seq<u8>| query_accepts(target, exclude, member),
        ),
{
    broadcast use vstd::seq_lib::group_filter_ensures;

    let accepted = |member: Seq<u8>| query_accepts(target, exclude, member);
    let found = members.filter(accepted);
    assert forall|member: Seq<u8>| found.contains(member) <==> members.contains(member)
        && accepted(member) by {
        if found.contains(member) {
            members.lemma_filter_contains_rev(accepted, member);
            let i = choose|i: int| 0 <= i < found.len() && found[i] == member;
            assert(accepted(found[i]));
        }
        if members.contains(member) && accepted(member) {
            let i = choose|i: int| 0 <= i < members.len() && members[i] == member;
            assert(found.contains(members[i]));
        }
    }
    assert(found.to_set() =~= members.to_set().filter(accepted)) by {
        assert forall|member: Seq<u8>| found.to_set().contains(member) == members.to_set().filter(
            accepted,
        ).contains(member) by {
            assert(found.to_set().contains(member) == found.contains(member));
            assert(members.to_set().contains(member) == members.contains(member));
        }
    }
}

/// A search never answers with the path that it was told to exclude.
pub proof fn lemma_excluded_never_found(
    state: IndexState,
    target: Seq<char>,
    excluded: Seq<char>,
    found: Seq<char>,
)
    requires
        is_answer(state, target, Some(excluded), Some(found)),
    ensures
        encode_utf8(found) != encode_utf8(excluded),
        found != excluded,
{
    broadcast use vstd::seq_lib::group_filter_ensures;

    let accepted = |key: Seq<u8>| query_accepts(target, Some(excluded), key);
    let pool = state.members.filter(accepted);
    let ranked = pool.map_values(|key: Seq<u8>| candidate_of(state.ledger, target, key));
    let best = candidate_of(state.ledger, target, encode_utf8(found));
    let i = choose|i: int| 0 <= i < ranked.len() && ranked[i] == best;
    assert(ranked[i].key == pool[i]);
    assert(accepted(pool[i]));
}

/// Of two members that match and score equally, the one that the ledger saw
/// earlier is never the answer.
pub proof fn lemma_answer_prefers_later_visit(
    state: IndexState,
    target: Seq<char>,
    exclude: Option<Seq<char>>,
    found: Seq<char>,
    later: Seq<u8>,
    earlier: Seq<u8>,
)
    requires
        is_answer(state, target, exclude, Some(found)),
        candidates(state.members, target, exclude).contains(later),
        candidate_of(state.ledger, target, later).score == candidate_of(
            state.ledger,
            target,
            earlier,
        ).score,
        candidate_of(state.ledger, target, later).rank > candidate_of(
            state.ledger,
            target,
            earlier,
        ).rank,
    ensures
        encode_utf8(found) != earlier,
{
    let pool = candidates(state.members, target, exclude);
    let ranked = pool.map_values(|key: Seq<u8>| candidate_of(state.ledger, target, key));
    let best = candidate_of(state.ledger, target, encode_utf8(found));
    let i = choose|i: int| 0 <= i < pool.len() && pool[i] == later;
    assert(ranked[i] == candidate_of(state.ledger, target, later));
    lemma_later_visit_wins(
        best,
        ranked,
        candidate_of(state.ledger, target, later),
        candidate_of(state.ledger, target, earlier),
    );
}

/// Where two members alone share the highest score of those that match, the
/// one that the ledger saw later is the answer.
pub proof fn lemma_later_of_two_is_the_answer(
    state: IndexState,
    target: Seq<char>,
    exclude: Option<Seq<char>>,
    found: Seq<char>,
    earlier: Seq<u8>,
    later: Seq<u8>,
)
    requires
        is_answer(state, target, exclude, Some(found)),
        candidates(state.members, target, exclude).contains(earlier),
        candidates(state.members, target, exclude).contains(later),
        candidate_of(state.ledger, target, later).score == candidate_of(
            state.ledger,
            target,
            earlier,
        ).score,
        candidate_of(state.ledger, target, later).rank > candidate_of(
            state.ledger,
            target,
            earlier,
        ).rank,
        forall|i: int|
            #![trigger candidates(state.members, target, exclude)[i]]
            0 <= i < candidates(state.members, target, exclude).len() && candidates(
                state.members,
                target,
                exclude,
            )[i] != earlier && candidates(state.members, target, exclude)[i] != later
                ==> candidate_of(
                state.ledger,
                target,
                candidates(state.members, target, exclude)[i],
            ).score < candidate_of(state.ledger, target, later).score,
    ensures
        encode_utf8(found) == later,
{
    let pool = candidates(state.members, target, exclude);
    let ranked = ranked_candidates(state, target, exclude);
    let best = candidate_of(state.ledger, target, encode_utf8(found));
    let at = choose|i: int| 0 <= i < ranked.len() && ranked[i] == best;
    let at_later = choose|i: int| 0 <= i < pool.len() && pool[i] == later;
    assert(ranked[at].key == pool[at]);
    assert(ranked[at_later] == candidate_of(state.ledger, target, later));
    assert(!ranked[at_later].outranks(best));
    if pool[at] != later {
        if pool[at] != earlier {
            assert(best.score < candidate_of(state.ledger, target, later).score);
        }
    }
}

/// Where a path is excluded and no other member matches, no member is a
/// candidate.
pub proof fn lemma_only_match_excluded(
    members: Seq<Seq<u8>>,
    target: Seq<char>,
    excluded: Seq<char>,
)
    requires
        forall|i: int|
            0 <= i < members.len() && query_accepts(target, None, #[trigger] members[i])
                ==> members[i] == encode_utf8(excluded),
    ensures
        candidates(members, target, Some(excluded)).len() == 0,
        matches_are_text(members, target, Some(excluded)),
{
    lemma_filter_keeps_none(
        members,
        |key: Seq<u8>| query_accepts(target, Some(excluded), key),
    );
}

/// An index without members has no candidates, whatever the target.
pub proof fn lemma_no_members_no_candidates(target: Seq<char>, exclude: Option<Seq<char>>)
    ensures
        candidates(Seq::empty(), target, exclude).len() == 0,
        matches_are_text(Seq::empty(), target, exclude),
{
    lemma_filter_keeps_none(
        Seq::<Seq<u8>>::empty(),
        |key: Seq<u8>| query_accepts(target, exclude, key),
    );
}

/// A search with an empty target answers with nothing, whatever the index
/// holds.
pub proof fn lemma_empty_target_finds_nothing(
    state: IndexState,
    exclude: Option<Seq<char>>,
    found: Option<Seq<char>>,
)
    requires
        is_answer(state, Seq::empty(), exclude, found),
    ensures
        found is None,
{
}

/// The answer of a search is one of the members, and the query accepts it.
pub proof fn lemma_answer_is_candidate(
    state: IndexState,
    target: Seq<char>,
    exclude: Option<Seq<char>>,
    found: Seq<char>,
)
    requires
        is_answer(state, target, exclude, Some(found)),
    ensures
        state.members.contains(encode_utf8(found)),
        query_accepts(target, exclude, encode_utf8(found)),
{
    broadcast use vstd::seq_lib::group_filter_ensures;

    let accepted = |key: Seq<u8>| query_accepts(target, exclude, key);
    let pool = state.members.filter(accepted);
    let ranked = pool.map_values(|key: Seq<u8>| candidate_of(state.ledger, target, key));
    let best = candidate_of(state.ledger, target, encode_utf8(found));
    let i = choose|i: int| 0 <= i < ranked.len() && ranked[i] == best;
    assert(ranked[i].key == pool[i]);
    assert(accepted(pool[i]));
    assert(pool.contains(pool[i]));
    state.members.lemma_filter_contains_rev(accepted, pool[i]);
}

} // verus!
