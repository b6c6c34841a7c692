//! The ordered key-value trees in which the index is kept.
//!
//! A tree maps byte keys to byte values, keeps them in key order and survives
//! the process. Each tree is opened once; while the handle lives nothing else
//! writes to the tree, so what it holds changes only through the calls below.

use vstd::prelude::*;
use vstd::utf8::{encode_utf8, encode_utf8_decode_utf8};
use crate::error::IndexError;
use crate::order::ascending;

verus! {

/// The configuration of a `sled` database; it is handed on unread.
#[verifier::external_type_specification]
#[verifier::external_body]
pub struct ExSledConfig(sled::Config);

/// An open `sled` database; it is used to open its trees and then dropped.
#[verifier::external_type_specification]
#[verifier::external_body]
pub struct ExSledDb(sled::Db);

/// One tree of a `sled` database; what it holds is told by `tree_entries`.
#[verifier::external_type_specification]
#[verifier::external_body]
pub struct ExSledTree(sled::Tree);

/// The error type of `sled`; it is turned into a failure of the index.
#[verifier::external_type_specification]
#[verifier::external_body]
pub struct ExSledError(sled::Error);

/// The key-value pairs that a tree holds.
pub uninterp spec fn tree_entries(tree: sled::Tree) -> Map<Seq<u8>, Seq<u8>>;

/// The name under which the database keeps a tree, as `sled::Tree::name`
/// tells it. Two trees of one database with different names are two trees.
pub uninterp spec fn tree_name(tree: sled::Tree) -> Seq<u8>;

/// The value under `key`, if the map has one.
pub open spec fn lookup(entries: Map<Seq<u8>, Seq<u8>>, key: Seq<u8>) -> Option<Seq<u8>> {
    if entries.contains_key(key) {
        Some(entries[key])
    } else {
        None
    }
}

/// The bytes of a value that may be absent.
pub open spec fn value_view(value: Option<Vec<u8>>) -> Option<Seq<u8>> {
    match value {
        Some(bytes) => Some(bytes@),
        None => None,
    }
}

/// The keys of a listing of pairs, in its order.
pub open spec fn entry_keys(pairs: Seq<(Vec<u8>, Vec<u8>)>) -> Seq<Seq<u8>> {
    pairs.map_values(|pair: (Vec<u8>, Vec<u8>)| pair.0@)
}

/// `pairs` lists every pair of `entries` once, in ascending key order.
pub open spec fn lists_entries(
    pairs: Seq<(Vec<u8>, Vec<u8>)>,
    entries: Map<Seq<u8>, Seq<u8>>,
) -> bool {
    &&& ascending(entry_keys(pairs))
    &&& entry_keys(pairs).to_set() == entries.dom()
    &&& forall|i: int|
        0 <= i < pairs.len() ==> entries[(#[trigger] pairs[i]).0@] == pairs[i].1@
}

/// `sled::Config::open`: opens the database that the configuration names, or
/// creates it. Nothing is known of what it holds.
#[verifier::external_body]
fn sled_open(config: &sled::Config) -> Result<sled::Db, sled::Error> {
    config.open()
}

/// `sled::Db::open_tree`: the tree of that name, created empty when the
/// database has none. The tree that comes back carries the name it was asked
/// for.
#[verifier::external_body]
fn sled_open_tree(db: &sled::Db, name: &str) -> (opened: Result<sled::Tree, sled::Error>)
    ensures
        opened matches Ok(tree) ==> tree_name(tree) == encode_utf8(name@),
{
    db.open_tree(name)
}

/// `sled::Tree::get`: the value stored under the key, if there is one.
#[verifier::external_body]
fn sled_get(tree: &sled::Tree, key: &[u8]) -> (found: Result<Option<Vec<u8>>, sled::Error>)
    ensures
        found matches Ok(value) ==> value_view(value) == lookup(tree_entries(*tree), key@),
{
    Ok(tree.get(key)?.map(|value| value.to_vec()))
}

/// `sled::Tree::insert`: stores the value under the key and returns the value
/// that was there before. The tree keeps its name.
#[verifier::external_body]
fn sled_insert(tree: &mut sled::Tree, key: &[u8], value: &[u8]) -> (previous: Result<
    Option<Vec<u8>>,
    sled::Error,
>)
    ensures
        tree_name(*final(tree)) == tree_name(*old(tree)),
        previous matches Ok(before) ==> {
            &&& value_view(before) == lookup(tree_entries(*old(tree)), key@)
            &&& tree_entries(*final(tree)) == tree_entries(*old(tree)).insert(key@, value@)
        },
{
    Ok(tree.insert(key, value)?.map(|before| before.to_vec()))
}

/// `sled::Tree::remove`: deletes the key and returns the value that was stored
/// under it. The tree keeps its name.
#[verifier::external_body]
fn sled_remove(tree: &mut sled::Tree, key: &[u8]) -> (previous: Result<
    Option<Vec<u8>>,
    sled::Error,
>)
    ensures
        tree_name(*final(tree)) == tree_name(*old(tree)),
        previous matches Ok(before) ==> {
            &&& value_view(before) == lookup(tree_entries(*old(tree)), key@)
            &&& tree_entries(*final(tree)) == tree_entries(*old(tree)).remove(key@)
        },
{
    Ok(tree.remove(key)?.map(|before| before.to_vec()))
}

/// `sled::Tree::iter`, collected: every pair of the tree, in the byte order of
/// the keys.
#[verifier::external_body]
fn sled_pairs(tree: &sled::Tree) -> (listed: Result<Vec<(Vec<u8>, Vec<u8>)>, sled::Error>)
    ensures
        listed matches Ok(pairs) ==> lists_entries(pairs@, tree_entries(*tree)),
{
    tree.iter().map(|item| item.map(|(key, value)| (key.to_vec(), value.to_vec()))).collect()
}

/// Tells the store's "unsupported" error, which an incompatible database
/// raises, from its other errors, and keeps the error's message.
#[verifier::external_body]
fn sled_failure(error: sled::Error) -> (failure: IndexError)
    ensures
        failure.is_storage(),
{
    match error {
        sled::Error::Unsupported(message) => IndexError::IncompatibleStore { message },
        other => IndexError::StorageFailure { message: other.to_string() },
    }
}

/// One tree of the database.
pub struct Store {
    tree: sled::Tree,
}

impl View for Store {
    type V = Map<Seq<u8>, Seq<u8>>;

    /// The pairs that the tree holds.
    closed spec fn view(&self) -> Map<Seq<u8>, Seq<u8>> {
        tree_entries(self.tree)
    }
}

/// The trees that an index needs: the path ledger and the tree of the
/// membership image.
pub(crate) struct Trees {
    pub(crate) main: Store,
    pub(crate) paths: Store,
}

/// The name of the tree that holds the membership image.
pub const MAIN_TREE: &'static str = "main";

/// The name of the tree that holds the ledger.
pub const PATHS_TREE: &'static str = "paths";

/// The name of the tree of the membership image, as bytes.
pub open spec fn main_tree_name() -> Seq<u8> {
    encode_utf8(MAIN_TREE@)
}

/// The name of the tree of the ledger, as bytes.
pub open spec fn paths_tree_name() -> Seq<u8> {
    encode_utf8(PATHS_TREE@)
}

/// The two trees of an index have different names.
pub proof fn lemma_tree_names_differ()
    ensures
        main_tree_name() != paths_tree_name(),
{
    reveal_strlit("main");
    reveal_strlit("paths");
    encode_utf8_decode_utf8(MAIN_TREE@);
    encode_utf8_decode_utf8(PATHS_TREE@);
    assert(MAIN_TREE@.len() != PATHS_TREE@.len());
}

/// Opens the database and, in it, the tree of the membership image and the
/// tree of the ledger. The two have different names, so they are two trees.
pub(crate) fn open_trees(config: &sled::Config) -> (opened: Result<Trees, IndexError>)
    ensures
        opened matches Ok(trees) ==> {
            &&& trees.main.name() == main_tree_name()
            &&& trees.paths.name() == paths_tree_name()
            &&& trees.main.name() != trees.paths.name()
        },
        opened matches Err(error) ==> error.is_storage(),
{
    proof {
        lemma_tree_names_differ();
    }
    let db = match sled_open(config) {
        Ok(db) => db,
        Err(error) => {
            return Err(sled_failure(error));
        },
    };
    let main_tree = match sled_open_tree(&db, MAIN_TREE) {
        Ok(tree) => tree,
        Err(error) => {
            return Err(sled_failure(error));
        },
    };
    let paths_tree = match sled_open_tree(&db, PATHS_TREE) {
        Ok(tree) => tree,
        Err(error) => {
            return Err(sled_failure(error));
        },
    };
    Ok(Trees { main: Store { tree: main_tree }, paths: Store { tree: paths_tree } })
}

/// Whether a read found a value. A read that failed counts as one that found
/// none.
pub fn found_value(read: &Result<Option<Vec<u8>>, IndexError>) -> (found: bool)
    ensures
        found == (read matches Ok(Some(_))),
{
    match read {
        Ok(Some(_)) => true,
        _ => false,
    }
}

impl Store {
    /// The name of the tree in its database.
    pub closed spec fn name(&self) -> Seq<u8> {
        tree_name(self.tree)
    }

    /// The value stored under `key`, if there is one.
    pub fn get(&self, key: &[u8]) -> (found: Result<Option<Vec<u8>>, IndexError>)
        ensures
            found matches Ok(value) ==> value_view(value) == lookup(self@, key@),
            found matches Err(error) ==> error.is_storage(),
    {
        match sled_get(&self.tree, key) {
            Ok(value) => Ok(value),
            Err(error) => Err(sled_failure(error)),
        }
    }

    /// Stores `value` under `key` and returns what was stored there before.
    /// After a failure nothing is known of the tree.
    pub fn insert(&mut self, key: &[u8], value: &[u8]) -> (previous: Result<
        Option<Vec<u8>>,
        IndexError,
    >)
        ensures
            final(self).name() == old(self).name(),
            previous matches Ok(before) ==> {
                &&& value_view(before) == lookup(old(self)@, key@)
                &&& final(self)@ == old(self)@.insert(key@, value@)
            },
            previous matches Err(error) ==> error.is_storage(),
    {
        match sled_insert(&mut self.tree, key, value) {
            Ok(before) => Ok(before),
            Err(error) => Err(sled_failure(error)),
        }
    }

    /// Deletes `key` and returns what was stored under it. After a failure
    /// nothing is known of the tree.
    pub fn remove(&mut self, key: &[u8]) -> (previous: Result<Option<Vec<u8>>, IndexError>)
        ensures
            final(self).name() == old(self).name(),
            previous matches Ok(before) ==> {
                &&& value_view(before) == lookup(old(self)@, key@)
                &&& final(self)@ == old(self)@.remove(key@)
            },
            previous matches Err(error) ==> error.is_storage(),
    {
        match sled_remove(&mut self.tree, key) {
            Ok(before) => Ok(before),
            Err(error) => Err(sled_failure(error)),
        }
    }

    /// Every pair of the tree, in the byte order of the keys.
    pub fn pairs(&self) -> (listed: Result<Vec<(Vec<u8>, Vec<u8>)>, IndexError>)
        ensures
            listed matches Ok(pairs) ==> lists_entries(pairs@, self@),
            listed matches Err(error) ==> error.is_storage(),
    {
        match sled_pairs(&self.tree) {
            Ok(pairs) => Ok(pairs),
            Err(error) => Err(sled_failure(error)),
        }
    }
}

} // verus!
