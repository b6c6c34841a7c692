//! The byte-wise lexicographic order in which keys are kept.

use vstd::prelude::*;

verus! {

/// The byte strings that a vector of keys holds.
pub open spec fn key_views(keys: Seq<Vec<u8>>) -> Seq<Seq<u8>> {
    keys.map_values(|key: Vec<u8>| key@)
}

/// `a` comes strictly before `b`: at the first byte where they differ `a` has
/// the smaller one, or `a` is a proper prefix of `b`.
pub open spec fn bytes_lt(a: Seq<u8>, b: Seq<u8>) -> bool
    decreases a.len(),
{
    if b.len() == 0 {
        false
    } else if a.len() == 0 {
        true
    } else if a[0] != b[0] {
        a[0] < b[0]
    } else {
        bytes_lt(a.drop_first(), b.drop_first())
    }
}

/// Every key comes strictly before all the keys behind it.
pub open spec fn ascending(keys: Seq<Seq<u8>>) -> bool {
    forall|i: int, j: int| 0 <= i < j < keys.len() ==> bytes_lt(#[trigger] keys[i], #[trigger] keys[j])
}

/// No key comes before a key in front of it; equal neighbours are allowed.
pub open spec fn non_descending(keys: Seq<Seq<u8>>) -> bool {
    forall|i: int, j: int|
        0 <= i < j < keys.len() ==> !bytes_lt(#[trigger] keys[j], #[trigger] keys[i])
}

/// Compares two keys byte by byte.
pub fn bytes_less(a: &[u8], b: &[u8]) -> (less: bool)
    ensures
        less == bytes_lt(a@, b@),
{
    let mut at: usize = 0;
    assert(a@.skip(0) =~= a@ && b@.skip(0) =~= b@);
    while at < a.len() && at < b.len() && a[at] == b[at]
        invariant
            at <= a.len(),
            at <= b.len(),
            bytes_lt(a@, b@) == bytes_lt(a@.skip(at as int), b@.skip(at as int)),
        decreases a.len() - at,
    {
        proof {
            let rest_a = a@.skip(at as int);
            let rest_b = b@.skip(at as int);
            assert(rest_a[0] == a@[at as int]);
            assert(rest_b[0] == b@[at as int]);
            assert(rest_a.drop_first() =~= a@.skip(at + 1));
            assert(rest_b.drop_first() =~= b@.skip(at + 1));
        }
        at += 1;
    }
    proof {
        let rest_a = a@.skip(at as int);
        let rest_b = b@.skip(at as int);
        if at < a.len() {
            assert(rest_a[0] == a@[at as int]);
        }
        if at < b.len() {
            assert(rest_b[0] == b@[at as int]);
        }
    }
    if at >= b.len() {
        false
    } else if at >= a.len() {
        true
    } else {
        a[at] < b[at]
    }
}

/// Of two different keys one comes before the other.
pub proof fn lemma_bytes_lt_total(a: Seq<u8>, b: Seq<u8>)
    ensures
        a == b || bytes_lt(a, b) || bytes_lt(b, a),
    decreases a.len(),
{
    if a.len() == 0 || b.len() == 0 {
        if a.len() == 0 && b.len() == 0 {
            assert(a =~= b);
        }
    } else if a[0] == b[0] {
        lemma_bytes_lt_total(a.drop_first(), b.drop_first());
        if a.drop_first() == b.drop_first() {
            assert(a =~= seq![a[0]] + a.drop_first());
            assert(b =~= seq![b[0]] + b.drop_first());
        }
    }
}

/// What comes before a key comes before everything behind that key.
pub proof fn lemma_bytes_lt_transitive(a: Seq<u8>, b: Seq<u8>, c: Seq<u8>)
    requires
        bytes_lt(a, b),
        bytes_lt(b, c),
    ensures
        bytes_lt(a, c),
    decreases a.len(),
{
    if a.len() > 0 && a[0] == b[0] && b[0] == c[0] {
        lemma_bytes_lt_transitive(a.drop_first(), b.drop_first(), c.drop_first());
    }
}

/// No key comes before itself.
pub proof fn lemma_bytes_lt_irreflexive(a: Seq<u8>)
    ensures
        !bytes_lt(a, a),
    decreases a.len(),
{
    if a.len() > 0 {
        lemma_bytes_lt_irreflexive(a.drop_first());
    }
}

/// Of two different keys at most one comes before the other.
pub proof fn lemma_bytes_lt_asymmetric(a: Seq<u8>, b: Seq<u8>)
    ensures
        !(bytes_lt(a, b) && bytes_lt(b, a)),
    decreases a.len(),
{
    if a.len() > 0 && b.len() > 0 && a[0] == b[0] {
        lemma_bytes_lt_asymmetric(a.drop_first(), b.drop_first());
    }
}

/// In an ascending listing a key stands at one place only.
pub proof fn lemma_ascending_no_repeat(keys: Seq<Seq<u8>>, i: int, j: int)
    requires
        ascending(keys),
        0 <= i < keys.len(),
        0 <= j < keys.len(),
        keys[i] == keys[j],
    ensures
        i == j,
{
    lemma_bytes_lt_irreflexive(keys[i]);
    if i < j {
        assert(bytes_lt(keys[i], keys[j]));
    } else if j < i {
        assert(bytes_lt(keys[j], keys[i]));
    }
}

/// The tail of an ascending listing holds every key of the listing but its
/// first.
proof fn lemma_tail_keys(keys: Seq<Seq<u8>>, key: Seq<u8>)
    requires
        ascending(keys),
        keys.len() > 0,
    ensures
        ascending(keys.drop_first()),
        keys.drop_first().contains(key) <==> (keys.contains(key) && key != keys[0]),
{
    let tail = keys.drop_first();
    assert forall|i: int, j: int| 0 <= i < j < tail.len() implies bytes_lt(
        #[trigger] tail[i],
        #[trigger] tail[j],
    ) by {
        assert(tail[i] == keys[i + 1]);
        assert(tail[j] == keys[j + 1]);
    }
    if tail.contains(key) {
        let i = choose|i: int| 0 <= i < tail.len() && tail[i] == key;
        assert(keys[i + 1] == key);
        assert(keys.contains(key));
        if key == keys[0] {
            lemma_ascending_no_repeat(keys, 0, i + 1);
        }
    }
    if keys.contains(key) && key != keys[0] {
        let i = choose|i: int| 0 <= i < keys.len() && keys[i] == key;
        assert(tail[i - 1] == key);
    }
}

/// The first key of an ascending listing comes before every other key of it.
proof fn lemma_head_is_least(keys: Seq<Seq<u8>>, key: Seq<u8>)
    requires
        ascending(keys),
        keys.contains(key),
    ensures
        key == keys[0] || bytes_lt(keys[0], key),
{
    let i = choose|i: int| 0 <= i < keys.len() && keys[i] == key;
    if i > 0 {
        assert(bytes_lt(keys[0], keys[i]));
    }
}

/// An ascending listing is determined by the keys it holds: two such listings
/// of the same keys are the same listing.
pub proof fn lemma_ascending_unique(x: Seq<Seq<u8>>, y: Seq<Seq<u8>>)
    requires
        ascending(x),
        ascending(y),
        x.to_set() == y.to_set(),
    ensures
        x == y,
    decreases x.len(),
{
    if x.len() == 0 {
        if y.len() > 0 {
            assert(y.contains(y[0]));
            assert(y.to_set().contains(y[0]));
            assert(x.contains(y[0]));
        }
        assert(x =~= y);
    } else {
        assert(x.contains(x[0]));
        assert(x.to_set().contains(x[0]));
        assert(y.contains(x[0]));
        assert(y.contains(y[0]));
        assert(y.to_set().contains(y[0]));
        assert(x.contains(y[0]));
        lemma_head_is_least(x, y[0]);
        lemma_head_is_least(y, x[0]);
        lemma_bytes_lt_asymmetric(x[0], y[0]);
        assert(x[0] == y[0]);
        let xt = x.drop_first();
        let yt = y.drop_first();
        assert forall|key: Seq<u8>| xt.to_set().contains(key) == yt.to_set().contains(key) by {
            lemma_tail_keys(x, key);
            lemma_tail_keys(y, key);
            assert(x.to_set().contains(key) == x.contains(key));
            assert(y.to_set().contains(key) == y.contains(key));
            assert(xt.to_set().contains(key) == xt.contains(key));
            assert(yt.to_set().contains(key) == yt.contains(key));
        }
        assert(xt.to_set() =~= yt.to_set());
        lemma_tail_keys(x, x[0]);
        lemma_tail_keys(y, y[0]);
        lemma_ascending_unique(xt, yt);
        assert(x =~= seq![x[0]] + xt);
        assert(y =~= seq![y[0]] + yt);
    }
}

/// A listing that ascends strictly does not descend anywhere.
pub proof fn lemma_ascending_is_non_descending(keys: Seq<Seq<u8>>)
    requires
        ascending(keys),
    ensures
        non_descending(keys),
{
    assert forall|i: int, j: int| 0 <= i < j < keys.len() implies !bytes_lt(
        #[trigger] keys[j],
        #[trigger] keys[i],
    ) by {
        lemma_bytes_lt_asymmetric(keys[i], keys[j]);
    }
}

/// Two tests that agree on every key keep the same keys of a listing.
pub proof fn lemma_filter_same_test(
    keys: Seq<Seq<u8>>,
    first: spec_fn(Seq<u8>) -> bool,
    second: spec_fn(Seq<u8>) -> bool,
)
    requires
        forall|key: Seq<u8>| #[trigger] first(key) == second(key),
    ensures
        keys.filter(first) == keys.filter(second),
    decreases keys.len(),
{
    reveal(Seq::filter);
    if keys.len() > 0 {
        lemma_filter_same_test(keys.drop_last(), first, second);
    }
}

/// What is kept of an ascending listing ascends.
pub proof fn lemma_filter_keeps_ascending(keys: Seq<Seq<u8>>, test: spec_fn(Seq<u8>) -> bool)
    requires
        ascending(keys),
    ensures
        ascending(keys.filter(test)),
    decreases keys.len(),
{
    reveal(Seq::filter);
    if keys.len() > 0 {
        let front = keys.drop_last();
        assert forall|i: int, j: int| 0 <= i < j < front.len() implies bytes_lt(
            #[trigger] front[i],
            #[trigger] front[j],
        ) by {
            assert(front[i] == keys[i] && front[j] == keys[j]);
        }
        lemma_filter_keeps_ascending(front, test);
        let kept = front.filter(test);
        if test(keys.last()) {
            let all = kept.push(keys.last());
            assert forall|i: int, j: int| 0 <= i < j < all.len() implies bytes_lt(
                #[trigger] all[i],
                #[trigger] all[j],
            ) by {
                if j < kept.len() {
                    assert(all[i] == kept[i] && all[j] == kept[j]);
                } else {
                    assert(all[i] == kept[i]);
                    assert(kept.contains(kept[i]));
                    front.lemma_filter_contains_rev(test, kept[i]);
                    let k = choose|k: int| 0 <= k < front.len() && front[k] == kept[i];
                    assert(front[k] == keys[k]);
                    assert(bytes_lt(keys[k], keys[keys.len() - 1]));
                }
            }
        }
    }
}

/// Where a test holds of one place of a listing only, what is kept is what
/// stands at that place.
pub proof fn lemma_filter_keeps_the_one<A>(items: Seq<A>, test: spec_fn(A) -> bool, place: int)
    requires
        0 <= place < items.len(),
        test(items[place]),
        forall|j: int| 0 <= j < items.len() && j != place ==> !test(#[trigger] items[j]),
    ensures
        items.filter(test) == seq![items[place]],
    decreases items.len(),
{
    reveal(Seq::filter);
    let front = items.drop_last();
    if place == items.len() - 1 {
        lemma_filter_keeps_none(front, test);
        assert(items.filter(test) =~= seq![items[place]]);
    } else {
        assert(front[place] == items[place]);
        assert forall|j: int| 0 <= j < front.len() && j != place implies !test(
            #[trigger] front[j],
        ) by {
            assert(front[j] == items[j]);
        }
        lemma_filter_keeps_the_one(front, test, place);
        assert(!test(items[items.len() - 1]));
    }
}

/// Where a test holds of no place of a listing, nothing is kept.
pub proof fn lemma_filter_keeps_none<A>(items: Seq<A>, test: spec_fn(A) -> bool)
    requires
        forall|j: int| 0 <= j < items.len() ==> !test(#[trigger] items[j]),
    ensures
        items.filter(test) == Seq::<A>::empty(),
    decreases items.len(),
{
    reveal(Seq::filter);
    if items.len() > 0 {
        let front = items.drop_last();
        assert forall|j: int| 0 <= j < front.len() implies !test(#[trigger] front[j]) by {
            assert(front[j] == items[j]);
        }
        lemma_filter_keeps_none(front, test);
        assert(!test(items[items.len() - 1]));
    } else {
        assert(items.filter(test) =~= Seq::<A>::empty());
    }
}

} // verus!
