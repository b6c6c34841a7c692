//! The set of known paths, kept as an immutable transducer image.
//!
//! A set is never changed in place: adding or removing a key builds a new set
//! from the old one and a small delta set.

use vstd::prelude::*;
use vstd::slice::slice_to_vec;
use crate::error::IndexError;
use crate::order::{
    ascending, bytes_lt, key_views, lemma_ascending_no_repeat, lemma_ascending_unique,
    lemma_bytes_lt_irreflexive, non_descending,
};

verus! {

/// The set type of the `fst` crate, taken as it is; what a set holds is told
/// by `set_keys`.
#[verifier::external_type_specification]
#[verifier::external_body]
#[verifier::reject_recursive_types(D)]
pub struct ExFstSet<D>(fst::Set<D>);

/// The error type of the `fst` crate; only its message is read.
#[verifier::external_type_specification]
#[verifier::external_body]
pub struct ExFstError(fst::Error);

/// The keys that a transducer set holds, in the order in which it streams them.
pub uninterp spec fn set_keys(set: fst::Set<Vec<u8>>) -> Seq<Seq<u8>>;

/// The set is one that the transducer builder made in this process, so that
/// it can be read through without a fault. A set over bytes from elsewhere is
/// never taken to be so.
pub uninterp spec fn set_intact(set: fst::Set<Vec<u8>>) -> bool;

/// The keys of the set that an image stands for: what a set over these bytes
/// holds.
pub uninterp spec fn image_keys(image: Seq<u8>) -> Seq<Seq<u8>>;

/// `fst::Set::default`: a freshly built set without keys.
#[verifier::external_body]
fn fst_empty() -> (set: fst::Set<Vec<u8>>)
    ensures
        set_intact(set),
        set_keys(set) == Seq::<Seq<u8>>::empty(),
{
    fst::Set::default()
}

/// `fst::Set::from_iter`: builds a set in memory from keys given in
/// lexicographic order. A key that comes before its predecessor is refused
/// with an error, and nothing else is: the set is written to memory and read
/// back from what was written. A repeated key is taken once.
#[verifier::external_body]
fn fst_from_keys(keys: &Vec<Vec<u8>>) -> (built: Result<fst::Set<Vec<u8>>, fst::Error>)
    ensures
        built is Ok <==> non_descending(key_views(keys@)),
        built matches Ok(set) ==> {
            &&& set_intact(set)
            &&& ascending(set_keys(set))
            &&& set_keys(set).to_set() == key_views(keys@).to_set()
        },
{
    fst::Set::from_iter(keys)
}

/// `OpBuilder::union` over the streams of two sets, fed to
/// `SetBuilder::extend_stream`: the new set holds every key that is in either.
/// The stream of a union ascends and the set is written to memory, so the
/// builder refuses nothing.
#[verifier::external_body]
fn fst_union(left: &fst::Set<Vec<u8>>, right: &fst::Set<Vec<u8>>) -> (built: Result<
    fst::Set<Vec<u8>>,
    fst::Error,
>)
    requires
        set_intact(*left),
        set_intact(*right),
    ensures
        built is Ok,
        built matches Ok(set) ==> {
            &&& set_intact(set)
            &&& ascending(set_keys(set))
            &&& set_keys(set).to_set() == set_keys(*left).to_set().union(set_keys(*right).to_set())
        },
{
    let mut builder = fst::SetBuilder::memory();
    builder.extend_stream(left.op().add(right.stream()).union())?;
    builder.into_inner().and_then(fst::Set::new)
}

/// `OpBuilder::difference` over the streams of two sets, fed to
/// `SetBuilder::extend_stream`: the new set holds the keys of the first that
/// are not in the second. The stream of a difference ascends and the set is
/// written to memory, so the builder refuses nothing.
#[verifier::external_body]
fn fst_difference(left: &fst::Set<Vec<u8>>, right: &fst::Set<Vec<u8>>) -> (built: Result<
    fst::Set<Vec<u8>>,
    fst::Error,
>)
    requires
        set_intact(*left),
        set_intact(*right),
    ensures
        built is Ok,
        built matches Ok(set) ==> {
            &&& set_intact(set)
            &&& ascending(set_keys(set))
            &&& set_keys(set).to_set() == set_keys(*left).to_set().difference(
                set_keys(*right).to_set(),
            )
        },
{
    let mut builder = fst::SetBuilder::memory();
    builder.extend_stream(left.op().add(right.stream()).difference())?;
    builder.into_inner().and_then(fst::Set::new)
}

/// `Set::stream` collected by `Stream::into_bytes`: all keys, in lexicographic
/// order.
#[verifier::external_body]
fn fst_keys(set: &fst::Set<Vec<u8>>) -> (keys: Vec<Vec<u8>>)
    requires
        set_intact(*set),
    ensures
        key_views(keys@) == set_keys(*set),
        ascending(key_views(keys@)),
{
    set.stream().into_bytes()
}

/// `Fst::as_bytes`: the image that stands for the set.
#[verifier::external_body]
fn fst_image(set: &fst::Set<Vec<u8>>) -> (image: Vec<u8>)
    ensures
        image_keys(image@) == set_keys(*set),
{
    set.as_fst().as_bytes().to_vec()
}

/// An immutable, ordered, duplicate-free set of keys.
pub struct PathSet {
    inner: fst::Set<Vec<u8>>,
}

impl View for PathSet {
    type V = Seq<Seq<u8>>;

    /// The keys, first to last.
    closed spec fn view(&self) -> Seq<Seq<u8>> {
        set_keys(self.inner)
    }
}

impl PathSet {
    #[verifier::type_invariant]
    spec fn well_formed(self) -> bool {
        set_intact(self.inner) && ascending(set_keys(self.inner))
    }

    /// The empty set.
    pub fn new() -> (set: PathSet)
        ensures
            set@ == Seq::<Seq<u8>>::empty(),
    {
        PathSet { inner: fst_empty() }
    }

    /// The set of the given keys, which must come in lexicographic order. A key
    /// may repeat; it is then taken once. Keys out of order are refused.
    pub fn from_keys(keys: &Vec<Vec<u8>>) -> (built: Result<PathSet, IndexError>)
        ensures
            built is Ok <==> non_descending(key_views(keys@)),
            built matches Ok(set) ==> ascending(set@) && set@.to_set() == key_views(keys@).to_set(),
            built matches Err(error) ==> error is CorruptIndex,
    {
        match fst_from_keys(keys) {
            Ok(inner) => Ok(PathSet { inner }),
            Err(error) => Err(IndexError::CorruptIndex { message: error.to_string() }),
        }
    }

    /// The set that holds `key` and nothing else.
    pub fn single(key: &[u8]) -> (built: Result<PathSet, IndexError>)
        ensures
            built matches Ok(set) && set@ == seq![key@],
    {
        let mut keys: Vec<Vec<u8>> = Vec::new();
        keys.push(slice_to_vec(key));
        assert(key_views(keys@) =~= seq![key@]);
        assert(non_descending(key_views(keys@)));
        match fst_from_keys(&keys) {
            Ok(inner) => {
                proof {
                    lemma_listing_of_one(set_keys(inner), key@);
                }
                Ok(PathSet { inner })
            },
            Err(error) => Err(IndexError::CorruptIndex { message: error.to_string() }),
        }
    }

    /// All keys, first to last.
    pub fn keys(&self) -> (keys: Vec<Vec<u8>>)
        ensures
            key_views(keys@) == self@,
            ascending(self@),
    {
        proof {
            use_type_invariant(self);
        }
        fst_keys(&self.inner)
    }

    /// How many keys the set holds.
    pub fn len(&self) -> (count: usize)
        ensures
            count == self@.len(),
    {
        let keys = self.keys();
        keys.len()
    }

    /// Whether the set holds no key.
    pub fn is_empty(&self) -> (empty: bool)
        ensures
            empty == (self@.len() == 0),
    {
        self.len() == 0
    }

    /// The image under which the set is stored.
    pub fn to_image(&self) -> (image: Vec<u8>)
        ensures
            image_keys(image@) == self@,
    {
        fst_image(&self.inner)
    }
}

/// `merged` lists, in ascending order, the keys that are in `left` or in `right`.
pub open spec fn is_union(merged: Seq<Seq<u8>>, left: Seq<Seq<u8>>, right: Seq<Seq<u8>>) -> bool {
    ascending(merged) && merged.to_set() == left.to_set().union(right.to_set())
}

/// `rest` lists, in ascending order, the keys of `left` that are not in `right`.
pub open spec fn is_difference(
    rest: Seq<Seq<u8>>,
    left: Seq<Seq<u8>>,
    right: Seq<Seq<u8>>,
) -> bool {
    ascending(rest) && rest.to_set() == left.to_set().difference(right.to_set())
}

/// Builds the union of two sets as a new set.
pub fn merge_fst_sets(paths_set: &PathSet, delta_set: &PathSet) -> (built: Result<
    PathSet,
    IndexError,
>)
    ensures
        built matches Ok(merged) && is_union(merged@, paths_set@, delta_set@),
{
    proof {
        use_type_invariant(paths_set);
        use_type_invariant(delta_set);
    }
    match fst_union(&paths_set.inner, &delta_set.inner) {
        Ok(inner) => Ok(PathSet { inner }),
        Err(error) => Err(IndexError::CorruptIndex { message: error.to_string() }),
    }
}

/// Builds a new set from the keys of the first that the second does not hold.
pub fn remove_fst_set(paths_set: &PathSet, delta_set: &PathSet) -> (built: Result<
    PathSet,
    IndexError,
>)
    ensures
        built matches Ok(rest) && is_difference(rest@, paths_set@, delta_set@),
{
    proof {
        use_type_invariant(paths_set);
        use_type_invariant(delta_set);
    }
    match fst_difference(&paths_set.inner, &delta_set.inner) {
        Ok(inner) => Ok(PathSet { inner }),
        Err(error) => Err(IndexError::CorruptIndex { message: error.to_string() }),
    }
}

/// A listing without keys is the empty listing.
proof fn lemma_no_keys(listing: Seq<Seq<u8>>)
    requires
        listing.to_set() == Set::<Seq<u8>>::empty(),
    ensures
        listing == Seq::<Seq<u8>>::empty(),
{
    if listing.len() > 0 {
        assert(listing.contains(listing[0]));
        assert(listing.to_set().contains(listing[0]));
    }
    assert(listing =~= Seq::<Seq<u8>>::empty());
}

/// The union of two empty sets is empty.
pub proof fn lemma_union_of_empties(merged: Seq<Seq<u8>>)
    requires
        is_union(merged, Seq::empty(), Seq::empty()),
    ensures
        merged == Seq::<Seq<u8>>::empty(),
{
    assert(Seq::<Seq<u8>>::empty().to_set() =~= Set::<Seq<u8>>::empty());
    assert(merged.to_set() =~= Set::<Seq<u8>>::empty());
    lemma_no_keys(merged);
}

/// The union of a set with the empty set, on either side, is that set.
pub proof fn lemma_union_with_empty(merged: Seq<Seq<u8>>, set: Seq<Seq<u8>>)
    requires
        ascending(set),
        is_union(merged, Seq::empty(), set) || is_union(merged, set, Seq::empty()),
    ensures
        merged == set,
{
    assert(Seq::<Seq<u8>>::empty().to_set() =~= Set::<Seq<u8>>::empty());
    assert(merged.to_set() =~= set.to_set());
    lemma_ascending_unique(merged, set);
}

/// The union does not depend on the side on which a set stands.
pub proof fn lemma_union_commutes(
    merged: Seq<Seq<u8>>,
    swapped: Seq<Seq<u8>>,
    left: Seq<Seq<u8>>,
    right: Seq<Seq<u8>>,
)
    requires
        is_union(merged, left, right),
        is_union(swapped, right, left),
    ensures
        merged == swapped,
{
    assert(merged.to_set() =~= swapped.to_set());
    lemma_ascending_unique(merged, swapped);
}

/// Taking the empty set away from a set leaves that set.
pub proof fn lemma_difference_with_empty(rest: Seq<Seq<u8>>, set: Seq<Seq<u8>>)
    requires
        ascending(set),
        is_difference(rest, set, Seq::empty()),
    ensures
        rest == set,
{
    assert(Seq::<Seq<u8>>::empty().to_set() =~= Set::<Seq<u8>>::empty());
    assert(rest.to_set() =~= set.to_set());
    lemma_ascending_unique(rest, set);
}

/// Taking any set away from the empty set leaves the empty set.
pub proof fn lemma_difference_of_empty(rest: Seq<Seq<u8>>, set: Seq<Seq<u8>>)
    requires
        is_difference(rest, Seq::empty(), set),
    ensures
        rest == Seq::<Seq<u8>>::empty(),
{
    assert(Seq::<Seq<u8>>::empty().to_set() =~= Set::<Seq<u8>>::empty());
    assert(rest.to_set() =~= Set::<Seq<u8>>::empty());
    lemma_no_keys(rest);
}

/// Taking a set away from itself leaves the empty set.
pub proof fn lemma_difference_with_self(rest: Seq<Seq<u8>>, set: Seq<Seq<u8>>)
    requires
        is_difference(rest, set, set),
    ensures
        rest == Seq::<Seq<u8>>::empty(),
{
    assert(rest.to_set() =~= Set::<Seq<u8>>::empty());
    lemma_no_keys(rest);
}

/// Taking away a key that was merged into a set which did not hold it gives
/// the set back.
pub proof fn lemma_remove_undoes_merge(
    set: Seq<Seq<u8>>,
    key: Seq<u8>,
    merged: Seq<Seq<u8>>,
    rest: Seq<Seq<u8>>,
)
    requires
        ascending(set),
        !set.contains(key),
        is_union(merged, set, seq![key]),
        is_difference(rest, merged, seq![key]),
    ensures
        rest == set,
{
    assert forall|other: Seq<u8>| rest.to_set().contains(other) == set.to_set().contains(
        other,
    ) by {
        assert(seq![key].to_set().contains(other) == seq![key].contains(other));
        assert(set.to_set().contains(other) == set.contains(other));
        if seq![key].contains(other) {
            assert(other == key);
        }
        if other == key {
            assert(seq![key][0] == key);
        }
    }
    assert(rest.to_set() =~= set.to_set());
    lemma_ascending_unique(rest, set);
}

/// Every key of a union is in one of the two sets, every key of a difference
/// is in the first set and not in the second, and neither holds a key twice.
pub proof fn lemma_union_and_difference_members(
    merged: Seq<Seq<u8>>,
    rest: Seq<Seq<u8>>,
    left: Seq<Seq<u8>>,
    right: Seq<Seq<u8>>,
    key: Seq<u8>,
)
    requires
        is_union(merged, left, right),
        is_difference(rest, left, right),
    ensures
        merged.contains(key) <==> left.contains(key) || right.contains(key),
        rest.contains(key) <==> left.contains(key) && !right.contains(key),
        merged.no_duplicates(),
        rest.no_duplicates(),
{
    assert(merged.to_set().contains(key) == merged.contains(key));
    assert(rest.to_set().contains(key) == rest.contains(key));
    assert(left.to_set().contains(key) == left.contains(key));
    assert(right.to_set().contains(key) == right.contains(key));
    assert forall|i: int, j: int|
        0 <= i < merged.len() && 0 <= j < merged.len() && i != j implies merged[i]
        != merged[j] by {
        if merged[i] == merged[j] {
            lemma_ascending_no_repeat(merged, i, j);
        }
    }
    assert forall|i: int, j: int|
        0 <= i < rest.len() && 0 <= j < rest.len() && i != j implies rest[i] != rest[j] by {
        if rest[i] == rest[j] {
            lemma_ascending_no_repeat(rest, i, j);
        }
    }
}

/// An ascending listing whose keys are exactly `key` is the listing of `key`
/// alone.
proof fn lemma_listing_of_one(listing: Seq<Seq<u8>>, key: Seq<u8>)
    requires
        ascending(listing),
        listing.to_set() == seq![key].to_set(),
    ensures
        listing == seq![key],
{
    assert(seq![key].to_set().contains(key)) by {
        assert(seq![key][0] == key);
    }
    assert(listing.contains(key));
    assert forall|i: int| 0 <= i < listing.len() implies listing[i] == key by {
        assert(listing.to_set().contains(listing[i]));
        assert(seq![key].contains(listing[i]));
    }
    if listing.len() >= 2 {
        assert(bytes_lt(listing[0], listing[1]));
        lemma_bytes_lt_irreflexive(key);
    }
    assert(listing.len() >= 1);
    assert(listing =~= seq![key]);
}

} // verus!
