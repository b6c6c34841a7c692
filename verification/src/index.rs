//! The index engine: it keeps the path ledger and the membership set in
//! step and answers searches.
//!
//! The ledger maps each known path to the time of its last visit. The
//! membership set holds the known paths in searchable form; its image is
//! stored beside the ledger. The two are written one after the other and not
//! as one transaction, so a failure between the two writes can leave them
//! apart. That is mended when the index is opened: the membership set is then
//! built anew from the paths of the ledger and its image is stored, and the
//! image that the store held is not read. Searches run against the set that
//! was built, so no bytes from the store are ever read as a set.

use vstd::prelude::*;
use vstd::utf8::{encode_utf8, valid_utf8};
use crate::error::IndexError;
use crate::matcher::{
    accepted_are_text, build_query, query_accepts, select, selected, text_view, Matcher,
};
use crate::membership::{merge_fst_sets, remove_fst_set, PathSet};
use crate::order::{
    ascending, key_views, lemma_ascending_is_non_descending, lemma_filter_keeps_ascending,
    lemma_filter_keeps_the_one, lemma_filter_same_test,
};
use crate::probe::{now, probe_path, PathProbe};
use crate::score::{
    is_alone_at_top, is_best, is_max_score, is_scoring, lemma_outranks_irreflexive,
    max_score, pick_best, ranked_all, retain_ties, score_results, single_top, tied_at, Score,
};
use crate::state::{
    added, by_ledger, candidate_of, candidates, deleted, is_answer, matches_are_text,
    members_of, needs_rebuild, ranked_by_ledger, ranked_candidates, rebuilt, recorded,
    Combinator, IndexState,
};
use crate::store::{
    entry_keys, found_value, lists_entries, lookup, main_tree_name, open_trees,
    paths_tree_name, Store,
};
use crate::text::{path_keys, path_of_key, path_view};
use crate::timestamp::{decodable, Timestamp};

verus! {

/// The key under which the membership image is stored.
pub const INDEX_KEY: &'static str = "index";

/// The key of the membership image, as bytes.
pub open spec fn index_key() -> Seq<u8> {
    encode_utf8(INDEX_KEY@)
}

/// One entry of the ledger.
#[derive(Debug, PartialEq, Eq, PartialOrd, Ord)]
pub struct PathIndexEntry {
    pub timestamp: Timestamp,
    pub path: String,
}

/// The byte keys of a listing of entries.
pub open spec fn listed_keys(entries: Seq<PathIndexEntry>) -> Seq<Seq<u8>> {
    entries.map_values(|entry: PathIndexEntry| encode_utf8(entry.path@))
}

/// `entries` lists the ledger: every path once, in ascending order, each with
/// the visit time stored for it.
pub open spec fn lists_ledger(entries: Seq<PathIndexEntry>, ledger: Map<Seq<u8>, Seq<u8>>) -> bool {
    &&& ascending(listed_keys(entries))
    &&& listed_keys(entries).to_set() == ledger.dom()
    &&& forall|i: int|
        0 <= i < entries.len() ==> ledger[encode_utf8((#[trigger] entries[i]).path@)]
            == entries[i].timestamp.spec_encode()
}

/// Every pair can be read as an entry: its key is text and its value is a
/// stored timestamp.
pub open spec fn readable(pairs: Seq<(Vec<u8>, Vec<u8>)>) -> bool {
    forall|i: int|
        0 <= i < pairs.len() ==> valid_utf8((#[trigger] pairs[i]).0@) && decodable(pairs[i].1@)
}

/// `entries` is what the pairs read as: one entry for each pair, in its
/// place, with the pair's key as its path and the pair's value as its time.
pub open spec fn is_reading(entries: Seq<PathIndexEntry>, pairs: Seq<(Vec<u8>, Vec<u8>)>) -> bool {
    &&& entries.len() == pairs.len()
    &&& forall|i: int|
        0 <= i < entries.len() ==> encode_utf8((#[trigger] entries[i]).path@) == pairs[i].0@
            && entries[i].timestamp.spec_encode() == pairs[i].1@
}

/// Reads the pairs of the ledger as entries. A key that is no text and a
/// value that is no stored timestamp are reported as corrupt.
pub fn entries_of(pairs: &Vec<(Vec<u8>, Vec<u8>)>) -> (result: Result<
    Vec<PathIndexEntry>,
    IndexError,
>)
    ensures
        result is Ok <==> readable(pairs@),
        result matches Ok(entries) ==> is_reading(entries@, pairs@),
        result matches Err(error) ==> error is CorruptIndex,
{
    let mut entries: Vec<PathIndexEntry> = Vec::new();
    let mut at: usize = 0;
    while at < pairs.len()
        invariant
            at <= pairs.len(),
            readable(pairs@.take(at as int)),
            is_reading(entries@, pairs@.take(at as int)),
        decreases pairs.len() - at,
    {
        let path = match path_of_key(&pairs[at].0) {
            Some(path) => path,
            None => {
                return Err(
                    IndexError::CorruptIndex {
                        message: String::from_str("a stored path is not valid UTF-8"),
                    },
                );
            },
        };
        let timestamp = match Timestamp::decode(pairs[at].1.as_slice()) {
            Some(timestamp) => timestamp,
            None => {
                return Err(
                    IndexError::CorruptIndex {
                        message: String::from_str("a stored visit time cannot be read"),
                    },
                );
            },
        };
        entries.push(PathIndexEntry { timestamp, path });
        proof {
            let front = pairs@.take(at + 1);
            assert forall|i: int| 0 <= i < front.len() implies valid_utf8(
                (#[trigger] front[i]).0@,
            ) && decodable(front[i].1@) by {
                if i < at {
                    assert(front[i] == pairs@.take(at as int)[i]);
                }
            }
            assert forall|i: int| 0 <= i < entries@.len() implies encode_utf8(
                (#[trigger] entries@[i]).path@,
            ) == front[i].0@ && entries@[i].timestamp.spec_encode() == front[i].1@ by {
                if i < at {
                    assert(front[i] == pairs@.take(at as int)[i]);
                }
            }
        }
        at += 1;
    }
    assert(pairs@.take(at as int) =~= pairs@);
    Ok(entries)
}

/// The keys of the pairs, in the order of the pairs.
pub fn keys_of(pairs: &Vec<(Vec<u8>, Vec<u8>)>) -> (keys: Vec<Vec<u8>>)
    ensures
        key_views(keys@) == entry_keys(pairs@),
{
    let mut keys: Vec<Vec<u8>> = Vec::new();
    let mut at: usize = 0;
    while at < pairs.len()
        invariant
            at <= pairs.len(),
            key_views(keys@) == entry_keys(pairs@.take(at as int)),
        decreases pairs.len() - at,
    {
        let ghost before = keys@;
        keys.push(pairs[at].0.clone());
        proof {
            assert(key_views(keys@) =~= key_views(before).push(pairs@[at as int].0@));
            assert(entry_keys(pairs@.take(at + 1)) =~= entry_keys(pairs@.take(at as int)).push(
                pairs@[at as int].0@,
            ));
        }
        at += 1;
    }
    assert(pairs@.take(at as int) =~= pairs@);
    keys
}

/// Tells whether a path may be added, from what was found out about it: a
/// path that is no directory is refused, then one that is not absolute.
pub fn check_probe(path: &str, probe: PathProbe) -> (checked: Result<(), IndexError>)
    ensures
        !probe.is_dir ==> (checked matches Err(IndexError::PathDoesNotExist { path: refused })
            && refused@ == path@),
        probe.is_dir && !probe.is_absolute ==> (checked matches Err(
            IndexError::RelativePath { path: refused },
        ) && refused@ == path@),
        probe.is_dir && probe.is_absolute ==> checked is Ok,
{
    if !probe.is_dir {
        Err(IndexError::PathDoesNotExist { path: String::from_str(path) })
    } else if !probe.is_absolute {
        Err(IndexError::RelativePath { path: String::from_str(path) })
    } else {
        Ok(())
    }
}

/// Whether a write to the ledger calls for a rebuild of the members.
pub fn rebuild_needed(op: Combinator, known: bool) -> (needed: bool)
    ensures
        needed == needs_rebuild(op, known),
{
    match op {
        Combinator::Union => !known,
        Combinator::Difference => known,
    }
}

/// What a read of the ledger found, as a visit time: none where the ledger
/// has no entry. A read that failed is handed on, and an entry that is no
/// stored timestamp is reported as corrupt.
pub fn stamp_of(read: Result<Option<Vec<u8>>, IndexError>) -> (result: Result<
    Option<Timestamp>,
    IndexError,
>)
    ensures
        read matches Err(error) ==> result == Err::<Option<Timestamp>, IndexError>(error),
        read matches Ok(None) ==> result matches Ok(None),
        read matches Ok(Some(bytes)) ==> match Timestamp::spec_decode(bytes@) {
            Some(stamp) => result == Ok::<Option<Timestamp>, IndexError>(Some(stamp)),
            None => result matches Err(error) && error is CorruptIndex,
        },
{
    match read {
        Ok(Some(bytes)) => match Timestamp::decode(bytes.as_slice()) {
            Some(stamp) => Ok(Some(stamp)),
            None => Err(
                IndexError::CorruptIndex {
                    message: String::from_str("a stored visit time cannot be read"),
                },
            ),
        },
        Ok(None) => Ok(None),
        Err(error) => Err(error),
    }
}

/// The index: its two trees and the membership set that searches run
/// against.
pub struct Index {
    main: Store,
    paths: Store,
    members: PathSet,
}

impl View for Index {
    type V = IndexState;

    closed spec fn view(&self) -> IndexState {
        IndexState {
            ledger: self.paths@,
            members: self.members@,
            stored: members_of(lookup(self.main@, index_key())),
        }
    }
}

impl Index {
    /// The index is laid out as it should be: the membership image lives in
    /// the tree named `main` and the ledger in the tree named `paths`, which
    /// are two trees, so a write to one leaves the other as it is.
    pub closed spec fn laid_out(&self) -> bool {
        self.main.name() == main_tree_name() && self.paths.name() == paths_tree_name()
    }

    /// Opens the index in the database that the configuration names, creating
    /// what is missing. The membership set is built from the paths of the
    /// ledger and its image is stored: whatever state the store was left in,
    /// the index that comes back has its members in step with its ledger.
    pub fn open(config: sled::Config) -> (opened: Result<Index, IndexError>)
        ensures
            opened matches Ok(index) ==> {
                &&& index.laid_out()
                &&& ascending(index@.members)
                &&& index@.consistent()
                &&& index@.persisted()
            },
            opened matches Err(error) ==> error.is_storage(),
    {
        let trees = match open_trees(&config) {
            Ok(trees) => trees,
            Err(error) => {
                return Err(error);
            },
        };
        let mut main = trees.main;
        let paths = trees.paths;
        let pairs = match paths.pairs() {
            Ok(pairs) => pairs,
            Err(error) => {
                return Err(error);
            },
        };
        let keys = keys_of(&pairs);
        proof {
            lemma_ascending_is_non_descending(key_views(keys@));
        }
        let members = match PathSet::from_keys(&keys) {
            Ok(members) => members,
            Err(error) => {
                return Err(error);
            },
        };
        let image = members.to_image();
        match main.insert(INDEX_KEY.as_bytes(), image.as_slice()) {
            Ok(_) => Ok(Index { main, paths, members }),
            Err(error) => Err(error),
        }
    }

    /// Whether the ledger knows the path. A ledger that cannot be read counts
    /// as not knowing it.
    pub fn has_path(&self, path: &str) -> (known: bool)
        ensures
            known ==> self@.ledger.contains_key(encode_utf8(path@)),
    {
        let read = self.paths.get(path.as_bytes());
        found_value(&read)
    }

    /// The paths that can be searched, as keys, in ascending order.
    pub fn member_keys(&self) -> (keys: Vec<Vec<u8>>)
        ensures
            key_views(keys@) == self@.members,
            ascending(self@.members),
    {
        self.members.keys()
    }

    /// Takes a rebuilt membership set for the members, given how the write of
    /// its image went: where the image was stored the set is taken, where the
    /// write failed the members stay as they are and the failure is handed
    /// on.
    pub fn adopt(&mut self, rebuilt: PathSet, stored: Result<Option<Vec<u8>>, IndexError>) -> (done:
        Result<(), IndexError>)
        ensures
            final(self).laid_out() == old(self).laid_out(),
            final(self)@.ledger == old(self)@.ledger,
            final(self)@.stored == old(self)@.stored,
            stored is Ok ==> done is Ok && final(self)@.members == rebuilt@,
            stored matches Err(error) ==> done == Err::<(), IndexError>(error) && final(self)@
                == old(self)@,
    {
        match stored {
            Ok(_) => {
                self.members = rebuilt;
                Ok(())
            },
            Err(error) => Err(error),
        }
    }

    /// Rebuilds the membership set from the present one and the one-key delta
    /// set of `path_bytes`, stores the image of the result and takes the
    /// result for the members. The ledger is not touched. Only the store can
    /// make this fail, and the members then stay as they are.
    pub fn update_paths_index(&mut self, path_bytes: &[u8], op: Combinator) -> (done: Result<
        (),
        IndexError,
    >)
        ensures
            final(self).laid_out() == old(self).laid_out(),
            final(self)@.ledger == old(self)@.ledger,
            done is Ok ==> rebuilt(old(self)@, path_bytes@, op, final(self)@),
            done matches Err(error) ==> error.is_storage() && final(self)@.members == old(
                self,
            )@.members,
    {
        let delta = match PathSet::single(path_bytes) {
            Ok(delta) => delta,
            Err(error) => {
                return Err(error);
            },
        };
        let built = match op {
            Combinator::Union => merge_fst_sets(&self.members, &delta),
            Combinator::Difference => remove_fst_set(&self.members, &delta),
        };
        let new_set = match built {
            Ok(new_set) => new_set,
            Err(error) => {
                return Err(error);
            },
        };
        let image = new_set.to_image();
        let stored = self.main.insert(INDEX_KEY.as_bytes(), image.as_slice());
        self.adopt(new_set, stored)
    }

    /// Goes on after a write to the ledger, given how the write went. A write
    /// that failed is handed on. A write that calls for no rebuild, because
    /// the visit was of a known path or the deletion of an unknown one, is
    /// done. Else the members are rebuilt with the one-key delta of
    /// `path_bytes`.
    pub fn after_write(
        &mut self,
        path_bytes: &[u8],
        op: Combinator,
        written: Result<Option<Vec<u8>>, IndexError>,
    ) -> (done: Result<(), IndexError>)
        ensures
            final(self).laid_out() == old(self).laid_out(),
            final(self)@.ledger == old(self)@.ledger,
            written matches Err(error) ==> done == Err::<(), IndexError>(error) && final(self)@
                == old(self)@,
            written matches Ok(before) ==> if needs_rebuild(op, before is Some) {
                &&& done is Ok ==> rebuilt(old(self)@, path_bytes@, op, final(self)@)
                &&& done matches Err(error) ==> error.is_storage() && final(self)@.members == old(
                    self,
                )@.members
            } else {
                done is Ok && final(self)@ == old(self)@
            },
    {
        match written {
            Err(error) => Err(error),
            Ok(before) => {
                if rebuild_needed(op, before.is_some()) {
                    self.update_paths_index(path_bytes, op)
                } else {
                    Ok(())
                }
            },
        }
    }

    /// Records a visit of `path` at the time `now`, given what `probe` found
    /// out about the path. A path that is no directory is refused, then one
    /// that is not absolute; neither changes anything. A path that the ledger
    /// did not know joins the members; for a known one only the time changes.
    /// Else only the store can make this fail.
    pub fn add_at(&mut self, path: &str, probe: PathProbe, now: Timestamp) -> (done: Result<
        (),
        IndexError,
    >)
        ensures
            final(self).laid_out() == old(self).laid_out(),
            !probe.is_dir ==> final(self)@ == old(self)@ && (done matches Err(
                IndexError::PathDoesNotExist { path: refused },
            ) && refused@ == path@),
            probe.is_dir && !probe.is_absolute ==> final(self)@ == old(self)@ && (done matches Err(
                IndexError::RelativePath { path: refused },
            ) && refused@ == path@),
            probe.is_dir && probe.is_absolute ==> {
                &&& done is Ok ==> added(
                    old(self)@,
                    encode_utf8(path@),
                    now.spec_encode(),
                    final(self)@,
                )
                &&& done matches Err(error) ==> error.is_storage()
            },
    {
        match check_probe(path, probe) {
            Ok(()) => {},
            Err(error) => {
                return Err(error);
            },
        }
        let path_bytes = path.as_bytes();
        let time_bytes = now.encode();
        let written = self.paths.insert(path_bytes, time_bytes.as_slice());
        self.after_write(path_bytes, Combinator::Union, written)
    }

    /// Records a visit of `path` now: looks at the path on this machine,
    /// reads the clock, and goes on as `add_at` does. A clock that reads a
    /// time before the Unix epoch is an error for a path that could be added,
    /// and changes nothing.
    pub fn add(&mut self, path: &str) -> (done: Result<(), IndexError>)
        ensures
            final(self).laid_out() == old(self).laid_out(),
            done is Ok ==> exists|stamp: Timestamp|
                added(old(self)@, encode_utf8(path@), stamp.spec_encode(), final(self)@)
                    && recorded(final(self)@.ledger, encode_utf8(path@)) == Some(stamp),
            done matches Err(error) ==> (error is PathDoesNotExist || error is RelativePath
                || error is TimeBeforeEpoch) ==> final(self)@ == old(self)@,
            done matches Err(IndexError::PathDoesNotExist { path: refused }) ==> refused@ == path@,
            done matches Err(IndexError::RelativePath { path: refused }) ==> refused@ == path@,
            done matches Err(error) ==> error is PathDoesNotExist || error is RelativePath
                || error is TimeBeforeEpoch || error.is_storage(),
    {
        let probe = probe_path(path);
        match check_probe(path, probe) {
            Ok(()) => {},
            Err(error) => {
                return Err(error);
            },
        }
        let stamp = match now() {
            Some(stamp) => stamp,
            None => {
                return Err(IndexError::TimeBeforeEpoch);
            },
        };
        let done = self.add_at(path, probe, stamp);
        proof {
            if done is Ok {
                assert(added(old(self)@, encode_utf8(path@), stamp.spec_encode(), self@)
                    && recorded(self@.ledger, encode_utf8(path@)) == Some(stamp));
            }
        }
        done
    }

    /// The members that match `target`, as paths, in ascending order. An
    /// empty target matches nothing. The excluded path is never among them.
    /// The target is taken as text, whatever characters it is made of. The
    /// search fails only where a member that matches is no text.
    pub fn search(&self, target: &str, exclude: Option<&str>) -> (result: Result<
        Vec<String>,
        IndexError,
    >)
        ensures
            target@.len() == 0 ==> (result matches Ok(found) && found@.len() == 0),
            target@.len() > 0 ==> (result is Ok <==> matches_are_text(
                self@.members,
                target@,
                text_view(exclude),
            )),
            target@.len() > 0 ==> (result matches Ok(found) ==> path_keys(found@) == candidates(
                self@.members,
                target@,
                text_view(exclude),
            )),
            result matches Ok(found) ==> ascending(path_keys(found@)),
            result matches Err(error) ==> error is CorruptIndex,
    {
        if target.is_empty() {
            let found: Vec<String> = Vec::new();
            assert(path_keys(found@) =~= Seq::<Seq<u8>>::empty());
            return Ok(found);
        }
        let keys = self.members.keys();
        let query = build_query(target, exclude);
        proof {
            lemma_query_selects(self@.members, query, target@, text_view(exclude));
        }
        select(&keys, &query)
    }

    /// Every member that matches `target`, whatever its score, in ascending
    /// order.
    pub fn find_all(&self, target: &str, exclude: Option<&str>) -> (result: Result<
        Vec<String>,
        IndexError,
    >)
        ensures
            target@.len() == 0 ==> (result matches Ok(found) && found@.len() == 0),
            target@.len() > 0 ==> (result is Ok <==> matches_are_text(
                self@.members,
                target@,
                text_view(exclude),
            )),
            target@.len() > 0 ==> (result matches Ok(found) ==> path_keys(found@) == candidates(
                self@.members,
                target@,
                text_view(exclude),
            )),
            result matches Ok(found) ==> ascending(path_keys(found@)),
            result matches Err(error) ==> error is CorruptIndex,
    {
        self.search(target, exclude)
    }

    /// The time of the last visit that the ledger records for `path`; none
    /// where the ledger does not know the path. An entry that is no stored
    /// timestamp is reported as corrupt.
    pub fn get_timestamp(&self, path: &str) -> (result: Result<Option<Timestamp>, IndexError>)
        ensures
            result matches Ok(stamp) ==> stamp == recorded(self@.ledger, encode_utf8(path@)),
            result matches Ok(None) ==> !self@.ledger.contains_key(encode_utf8(path@)),
            result matches Err(error) ==> error.is_storage() || error is CorruptIndex,
            result matches Err(error) ==> error is CorruptIndex ==> self@.ledger.contains_key(
                encode_utf8(path@),
            ) && recorded(self@.ledger, encode_utf8(path@)) is None,
    {
        let read = self.paths.get(path.as_bytes());
        stamp_of(read)
    }

    /// Gives every candidate the visit time that the ledger records for it.
    pub fn stamp_ties(&self, ties: &Vec<Score>) -> (result: Result<Vec<Score>, IndexError>)
        ensures
            ties@.len() == 0 ==> result is Ok,
            result matches Ok(stamped) ==> is_stamping(stamped@, ties@, self@.ledger),
            result matches Err(error) ==> error.is_storage() || error is CorruptIndex,
    {
        let mut stamped: Vec<Score> = Vec::new();
        let mut at: usize = 0;
        while at < ties.len()
            invariant
                at <= ties.len(),
                is_stamping(stamped@, ties@.take(at as int), self@.ledger),
            decreases ties.len() - at,
        {
            let timestamp = match self.get_timestamp(ties[at].path.as_str()) {
                Ok(timestamp) => timestamp,
                Err(error) => {
                    return Err(error);
                },
            };
            stamped.push(Score { score: ties[at].score, timestamp, path: ties[at].path.clone() });
            at += 1;
        }
        assert(ties@.take(at as int) =~= ties@);
        Ok(stamped)
    }

    /// Picks the best of the results: the one with the highest score and,
    /// where several share it, the one that the ledger saw last; where that
    /// leaves a choice, the one whose path comes last. The ledger is asked
    /// only when the highest score is shared.
    pub fn get_best_score(&self, results: Vec<Score>) -> (picked: Result<Option<Score>, IndexError>)
        ensures
            results@.len() == 0 ==> picked matches Ok(None),
            picked matches Ok(None) ==> results@.len() == 0,
            picked matches Ok(Some(best)) ==> {
                &&& exists|i: int|
                    0 <= i < results@.len() && (#[trigger] results@[i]).path == best.path
                        && results@[i].score == best.score
                &&& is_best(by_ledger(best, self@.ledger), ranked_by_ledger(results@, self@.ledger))
            },
            picked matches Ok(Some(best)) ==> forall|max: i64|
                is_max_score(max, results@) ==> if tied_at(results@, max).len() == 1 {
                    best == tied_at(results@, max)[0]
                } else {
                    best.timestamp == recorded(self@.ledger, best@.key)
                },
            picked matches Err(error) ==> error.is_storage() || error is CorruptIndex,
            forall|max: i64|
                is_max_score(max, results@) && tied_at(results@, max).len() == 1 ==> picked is Ok,
            single_top(ranked_by_ledger(results@, self@.ledger)) ==> picked is Ok,
    {
        if results.len() == 0 {
            return Ok(None);
        }
        let max = max_score(&results);
        let ties = retain_ties(&results, max);
        proof {
            lemma_max_is_unique(results@, max);
            lemma_ties(results@, max);
            if single_top(ranked_by_ledger(results@, self@.ledger)) {
                lemma_single_top_is_untied(results@, self@.ledger, max);
            }
        }
        if ties.len() > 1 {
            let stamped = match self.stamp_ties(&ties) {
                Ok(stamped) => stamped,
                Err(error) => {
                    return Err(error);
                },
            };
            let ghost pool = stamped@;
            match pick_best(stamped) {
                Some(best) => {
                    proof {
                        lemma_pick_among_stamped(results@, max, pool, best, self@.ledger);
                    }
                    Ok(Some(best))
                },
                None => Ok(None),
            }
        } else {
            let ghost pool = ties@;
            match pick_best(ties) {
                Some(best) => {
                    proof {
                        assert(pool[0] == best);
                        lemma_pick_single(results@, max, best, self@.ledger);
                    }
                    Ok(Some(best))
                },
                None => Ok(None),
            }
        }
    }

    /// The best member for `target`: of the members that match, the one that
    /// scores highest against the target, the latest visit deciding between
    /// equal scores. An empty target finds nothing. The ledger is read only
    /// where the highest score is shared: where no member matches, or one
    /// scores above all others, the search succeeds whatever the store does.
    pub fn find_one(&self, target: &str, exclude: Option<&str>) -> (result: Result<
        Option<String>,
        IndexError,
    >)
        ensures
            target@.len() == 0 ==> result matches Ok(None),
            result matches Ok(found) ==> is_answer(
                self@,
                target@,
                text_view(exclude),
                path_view(found),
            ),
            result matches Err(error) ==> error.is_storage() || error is CorruptIndex,
            target@.len() > 0 && !matches_are_text(self@.members, target@, text_view(exclude))
                ==> (result matches Err(error) && error is CorruptIndex),
            target@.len() > 0 && matches_are_text(self@.members, target@, text_view(exclude))
                && candidates(self@.members, target@, text_view(exclude)).len() == 0
                ==> result matches Ok(None),
            target@.len() > 0 && matches_are_text(self@.members, target@, text_view(exclude))
                && single_top(ranked_candidates(self@, target@, text_view(exclude)))
                ==> result matches Ok(Some(_)),
    {
        if target.is_empty() {
            return Ok(None);
        }
        let results = match self.search(target, exclude) {
            Ok(results) => results,
            Err(error) => {
                return Err(error);
            },
        };
        let score_vec = score_results(&results, target);
        let ghost scores = score_vec@;
        proof {
            lemma_scores_are_candidates(results@, scores, target@, self@.ledger);
            assert(path_keys(results@).len() == results@.len());
        }
        let best_score = match self.get_best_score(score_vec) {
            Ok(best_score) => best_score,
            Err(error) => {
                return Err(error);
            },
        };
        match best_score {
            Some(best) => {
                proof {
                    lemma_scored_pool(results@, scores, target@, self@.ledger, best);
                }
                Ok(Some(best.path))
            },
            None => {
                assert(path_keys(results@).len() == results@.len());
                Ok(None)
            },
        }
    }

    /// Every entry of the ledger, in the byte order of the paths, which is
    /// not the order of the visits.
    pub fn list(&self) -> (result: Result<Vec<PathIndexEntry>, IndexError>)
        ensures
            result matches Ok(entries) ==> lists_ledger(entries@, self@.ledger),
            result matches Err(error) ==> error.is_storage() || error is CorruptIndex,
    {
        let pairs = match self.paths.pairs() {
            Ok(pairs) => pairs,
            Err(error) => {
                return Err(error);
            },
        };
        match entries_of(&pairs) {
            Ok(entries) => {
                proof {
                    lemma_reading_lists(entries@, pairs@, self@.ledger);
                }
                Ok(entries)
            },
            Err(error) => Err(error),
        }
    }

    /// One round of a search that heals the index. The caller found that
    /// `dead`, the answer of the round before, is no directory any more: it is
    /// forgotten first. Then the best member for `target` is looked up; that
    /// none is left is the error `NoResults`. A round without a dead path
    /// changes nothing and fails or succeeds as the lookup does.
    pub fn find_next(&mut self, target: &str, exclude: Option<&str>, dead: Option<&str>) -> (result:
        Result<String, IndexError>)
        ensures
            final(self).laid_out() == old(self).laid_out(),
            dead is None ==> final(self)@ == old(self)@,
            (result is Ok || result matches Err(IndexError::NoResults { .. })) ==> {
                &&& dead matches Some(path) ==> deleted(
                    old(self)@,
                    encode_utf8(path@),
                    final(self)@,
                )
                &&& match result {
                    Ok(found) => is_answer(
                        final(self)@,
                        target@,
                        text_view(exclude),
                        Some(found@),
                    ),
                    Err(error) => error matches IndexError::NoResults { pattern } && pattern@
                        == target@ && is_answer(final(self)@, target@, text_view(exclude), None),
                }
            },
            result matches Err(error) ==> error is NoResults || error.is_storage()
                || error is CorruptIndex,
            dead is None && target@.len() == 0 ==> result matches Err(
                IndexError::NoResults { .. },
            ),
            dead is None && target@.len() > 0 && matches_are_text(
                old(self)@.members,
                target@,
                text_view(exclude),
            ) && candidates(old(self)@.members, target@, text_view(exclude)).len() == 0
                ==> result matches Err(IndexError::NoResults { .. }),
            dead is None && target@.len() > 0 && matches_are_text(
                old(self)@.members,
                target@,
                text_view(exclude),
            ) && single_top(ranked_candidates(old(self)@, target@, text_view(exclude)))
                ==> result is Ok,
            dead is None && target@.len() > 0 && !matches_are_text(
                old(self)@.members,
                target@,
                text_view(exclude),
            ) ==> (result matches Err(error) && error is CorruptIndex),
    {
        match dead {
            Some(path) => {
                match self.delete(path) {
                    Ok(()) => {},
                    Err(error) => {
                        return Err(error);
                    },
                }
            },
            None => {},
        }
        match self.find_one(target, exclude) {
            Ok(Some(found)) => Ok(found),
            Ok(None) => Err(IndexError::NoResults { pattern: String::from_str(target) }),
            Err(error) => Err(error),
        }
    }

    /// Forgets `path`. A path that the ledger does not know is no error and
    /// changes nothing; a known one leaves the ledger and the members. Only
    /// the store can make this fail.
    pub fn delete(&mut self, path: &str) -> (done: Result<(), IndexError>)
        ensures
            final(self).laid_out() == old(self).laid_out(),
            done is Ok ==> deleted(old(self)@, encode_utf8(path@), final(self)@),
            done matches Err(error) ==> error.is_storage(),
    {
        let path_bytes = path.as_bytes();
        let written = self.paths.remove(path_bytes);
        self.after_write(path_bytes, Combinator::Difference, written)
    }
}

/// Opens the index that the configuration names and records a visit of
/// `path` now. The open index comes back, with the path in its ledger and a
/// visit time recorded for it that can be read.
pub fn run_add(config: sled::Config, path: &str) -> (done: Result<Index, IndexError>)
    ensures
        done matches Ok(index) ==> {
            &&& index.laid_out()
            &&& ascending(index@.members)
            &&& index@.consistent()
            &&& index@.persisted()
            &&& index@.members.contains(encode_utf8(path@))
            &&& exists|stamp: Timestamp|
                recorded(index@.ledger, encode_utf8(path@)) == Some(stamp)
        },
        done matches Err(IndexError::PathDoesNotExist { path: refused }) ==> refused@ == path@,
        done matches Err(IndexError::RelativePath { path: refused }) ==> refused@ == path@,
        done matches Err(error) ==> error is PathDoesNotExist || error is RelativePath
            || error is TimeBeforeEpoch || error.is_storage(),
{
    let mut index = match Index::open(config) {
        Ok(index) => index,
        Err(error) => {
            return Err(error);
        },
    };
    let ghost before = index@;
    match index.add(path) {
        Ok(()) => {
            proof {
                let key = encode_utf8(path@);
                let stamp = choose|stamp: Timestamp|
                    added(before, key, stamp.spec_encode(), index@) && recorded(
                        index@.ledger,
                        key,
                    ) == Some(stamp);
                crate::state::lemma_add_keeps_consistent(before, key, stamp.spec_encode(), index@);
                crate::state::lemma_writes_keep_persisted(before, key, stamp.spec_encode(), index@);
                assert(index@.members.to_set().contains(key) == index@.members.contains(key));
                assert(index@.ledger.dom().contains(key));
            }
            Ok(index)
        },
        Err(error) => Err(error),
    }
}

/// Opens the index that the configuration names and lists its ledger. The
/// open index comes back with the listing, which holds every path of its
/// ledger once, in ascending order, each with the visit time stored for it.
pub fn run_list(config: sled::Config) -> (listed: Result<
    (Index, Vec<PathIndexEntry>),
    IndexError,
>)
    ensures
        listed matches Ok((index, entries)) ==> index.laid_out() && index@.consistent()
            && lists_ledger(entries@, index@.ledger),
        listed matches Err(error) ==> error.is_storage() || error is CorruptIndex,
{
    let index = match Index::open(config) {
        Ok(index) => index,
        Err(error) => {
            return Err(error);
        },
    };
    match index.list() {
        Ok(entries) => Ok((index, entries)),
        Err(error) => Err(error),
    }
}

/// What a query built for `target` selects of the members is what the search
/// for `target` is to find, and it is text where the members that match are.
proof fn lemma_query_selects(
    members: Seq<Seq<u8>>,
    query: Matcher,
    target: Seq<char>,
    exclude: Option<Seq<char>>,
)
    requires
        ascending(members),
        forall|key: Seq<u8>| query.accepts(key) == query_accepts(target, exclude, key),
    ensures
        selected(members, query) == candidates(members, target, exclude),
        accepted_are_text(members, query) == matches_are_text(members, target, exclude),
        ascending(selected(members, query)),
{
    lemma_filter_same_test(
        members,
        |key: Seq<u8>| query.accepts(key),
        |key: Seq<u8>| query_accepts(target, exclude, key),
    );
    lemma_filter_keeps_ascending(members, |key: Seq<u8>| query.accepts(key));
}

/// Entries that the pairs of the ledger read as list the ledger.
proof fn lemma_reading_lists(
    entries: Seq<PathIndexEntry>,
    pairs: Seq<(Vec<u8>, Vec<u8>)>,
    ledger: Map<Seq<u8>, Seq<u8>>,
)
    requires
        is_reading(entries, pairs),
        lists_entries(pairs, ledger),
    ensures
        lists_ledger(entries, ledger),
{
    assert(listed_keys(entries) =~= entry_keys(pairs)) by {
        assert forall|i: int| 0 <= i < entries.len() implies listed_keys(entries)[i]
            == entry_keys(pairs)[i] by {
            assert(encode_utf8(entries[i].path@) == pairs[i].0@);
        }
    }
    assert forall|i: int| 0 <= i < entries.len() implies ledger[encode_utf8(
        (#[trigger] entries[i]).path@,
    )] == entries[i].timestamp.spec_encode() by {
        assert(ledger[pairs[i].0@] == pairs[i].1@);
    }
}

/// `stamped` holds the candidates of `ties`, in their places, each with the
/// visit time that the ledger records for it.
pub open spec fn is_stamping(
    stamped: Seq<Score>,
    ties: Seq<Score>,
    ledger: Map<Seq<u8>, Seq<u8>>,
) -> bool {
    &&& stamped.len() == ties.len()
    &&& forall|i: int|
        0 <= i < stamped.len() ==> {
            &&& (#[trigger] stamped[i]).path == ties[i].path
            &&& stamped[i].score == ties[i].score
            &&& stamped[i].timestamp == recorded(ledger, ties[i]@.key)
        }
}

/// The highest score of some results is one number.
proof fn lemma_max_is_unique(results: Seq<Score>, max: i64)
    requires
        is_max_score(max, results),
    ensures
        forall|other: i64| is_max_score(other, results) ==> other == max,
{
}

/// The ties at the highest score are results, there is at least one, each has
/// the highest score, and every result with that score is among them.
proof fn lemma_ties(results: Seq<Score>, max: i64)
    requires
        is_max_score(max, results),
    ensures
        tied_at(results, max).len() >= 1,
        forall|i: int|
            0 <= i < tied_at(results, max).len() ==> (#[trigger] tied_at(results, max)[i]).score
                == max && results.contains(tied_at(results, max)[i]),
        forall|j: int|
            0 <= j < results.len() && (#[trigger] results[j]).score == max ==> tied_at(
                results,
                max,
            ).contains(results[j]),
{
    let pred = |candidate: Score| candidate.score == max;
    let ties = results.filter(pred);
    broadcast use vstd::seq_lib::group_filter_ensures;
    assert forall|i: int| 0 <= i < ties.len() implies (#[trigger] ties[i]).score == max
        && results.contains(ties[i]) by {
        assert(pred(ties[i]));
        assert(ties.contains(ties[i]));
        results.lemma_filter_contains_rev(pred, ties[i]);
    }
    assert forall|j: int| 0 <= j < results.len() && (#[trigger] results[j]).score
        == max implies ties.contains(results[j]) by {
        assert(pred(results[j]));
    }
    let top = choose|i: int| 0 <= i < results.len() && (#[trigger] results[i]).score == max;
    assert(ties.contains(results[top]));
}

/// Where one result alone has the highest score, it is the best whatever the
/// ledger records.
proof fn lemma_pick_single(
    results: Seq<Score>,
    max: i64,
    best: Score,
    ledger: Map<Seq<u8>, Seq<u8>>,
)
    requires
        is_max_score(max, results),
        tied_at(results, max).len() == 1,
        tied_at(results, max)[0] == best,
    ensures
        exists|i: int|
            0 <= i < results.len() && (#[trigger] results[i]).path == best.path
                && results[i].score == best.score,
        is_best(by_ledger(best, ledger), ranked_by_ledger(results, ledger)),
{
    lemma_ties(results, max);
    let ties = tied_at(results, max);
    assert(results.contains(ties[0]));
    let at = choose|i: int| 0 <= i < results.len() && results[i] == best;
    let pool = ranked_by_ledger(results, ledger);
    assert(pool[at] == by_ledger(best, ledger));
    assert forall|j: int| 0 <= j < pool.len() implies !(#[trigger] pool[j]).outranks(
        by_ledger(best, ledger),
    ) by {
        assert(pool[j] == by_ledger(results[j], ledger));
        if results[j].score == max {
            assert(ties.contains(results[j]));
            let k = choose|k: int| 0 <= k < ties.len() && ties[k] == results[j];
            assert(results[j] == best);
            lemma_outranks_irreflexive(by_ledger(best, ledger));
        }
    }
}

/// Where several results share the highest score, the best of them by the
/// visit times of the ledger is the best of all results.
proof fn lemma_pick_among_stamped(
    results: Seq<Score>,
    max: i64,
    stamped: Seq<Score>,
    best: Score,
    ledger: Map<Seq<u8>, Seq<u8>>,
)
    requires
        is_max_score(max, results),
        is_stamping(stamped, tied_at(results, max), ledger),
        stamped.contains(best),
        is_best(best@, ranked_all(stamped)),
    ensures
        exists|i: int|
            0 <= i < results.len() && (#[trigger] results[i]).path == best.path
                && results[i].score == best.score,
        is_best(by_ledger(best, ledger), ranked_by_ledger(results, ledger)),
{
    lemma_ties(results, max);
    let ties = tied_at(results, max);
    let k = choose|k: int| 0 <= k < stamped.len() && stamped[k] == best;
    assert(results.contains(ties[k]));
    let at = choose|i: int| 0 <= i < results.len() && results[i] == ties[k];
    assert(results[at].path == best.path && results[at].score == best.score);
    let pool = ranked_by_ledger(results, ledger);
    assert(best@ == by_ledger(best, ledger));
    assert(pool[at] == by_ledger(best, ledger));
    assert forall|j: int| 0 <= j < pool.len() implies !(#[trigger] pool[j]).outranks(
        by_ledger(best, ledger),
    ) by {
        assert(pool[j] == by_ledger(results[j], ledger));
        if results[j].score == max {
            assert(ties.contains(results[j]));
            let m = choose|m: int| 0 <= m < ties.len() && ties[m] == results[j];
            assert(ranked_all(stamped)[m] == stamped[m]@);
            assert(stamped[m]@ == by_ledger(results[j], ledger));
        }
    }
}

/// The candidates that were scored are the members that matched, read as the
/// ranking reads them.
proof fn lemma_scores_are_candidates(
    results: Seq<String>,
    scores: Seq<Score>,
    target: Seq<char>,
    ledger: Map<Seq<u8>, Seq<u8>>,
)
    requires
        is_scoring(scores, results, target),
    ensures
        ranked_by_ledger(scores, ledger) == path_keys(results).map_values(
            |key: Seq<u8>| candidate_of(ledger, target, key),
        ),
{
    let pool = path_keys(results).map_values(|key: Seq<u8>| candidate_of(ledger, target, key));
    assert forall|i: int| 0 <= i < scores.len() implies (#[trigger] ranked_by_ledger(
        scores,
        ledger,
    )[i]) == pool[i] by {
        vstd::utf8::encode_utf8_decode_utf8(results[i]@);
        assert(scores[i].path == results[i]);
        assert(path_keys(results)[i] == encode_utf8(results[i]@));
    }
    assert(ranked_by_ledger(scores, ledger) =~= pool);
}

/// The best of the candidates that were scored is the best of the members
/// that matched.
proof fn lemma_scored_pool(
    results: Seq<String>,
    scores: Seq<Score>,
    target: Seq<char>,
    ledger: Map<Seq<u8>, Seq<u8>>,
    best: Score,
)
    requires
        is_scoring(scores, results, target),
        exists|i: int|
            0 <= i < scores.len() && (#[trigger] scores[i]).path == best.path && scores[i].score
                == best.score,
        is_best(by_ledger(best, ledger), ranked_by_ledger(scores, ledger)),
    ensures
        is_best(
            candidate_of(ledger, target, encode_utf8(best.path@)),
            path_keys(results).map_values(|key: Seq<u8>| candidate_of(ledger, target, key)),
        ),
{
    lemma_scores_are_candidates(results, scores, target, ledger);
    let at = choose|i: int|
        0 <= i < scores.len() && (#[trigger] scores[i]).path == best.path && scores[i].score
            == best.score;
    vstd::utf8::encode_utf8_decode_utf8(results[at]@);
    assert(by_ledger(best, ledger) == candidate_of(ledger, target, encode_utf8(best.path@)));
}

/// Where one result scores strictly above every other, it alone has the
/// highest score.
proof fn lemma_single_top_is_untied(results: Seq<Score>, ledger: Map<Seq<u8>, Seq<u8>>, max: i64)
    requires
        is_max_score(max, results),
        single_top(ranked_by_ledger(results, ledger)),
    ensures
        tied_at(results, max).len() == 1,
{
    let pool = ranked_by_ledger(results, ledger);
    let top = choose|top: int| 0 <= top < pool.len() && #[trigger] is_alone_at_top(pool, top);
    assert forall|j: int| 0 <= j < results.len() && j != top implies (#[trigger] results[j]).score
        < results[top].score by {
        assert(pool[j].score == results[j].score);
        assert(pool[top].score == results[top].score);
    }
    let at = choose|i: int| 0 <= i < results.len() && (#[trigger] results[i]).score == max;
    assert(results[top].score <= max);
    assert(results[top].score == max);
    lemma_filter_keeps_the_one(results, |candidate: Score| candidate.score == max, top);
}

} // verus!
