//! Matchers: what a query accepts, and how a query is put together.
//!
//! A matcher is a small closed family of tests on a key. A query is built
//! from a target fragment: it accepts the keys that hold the fragment's bytes
//! in order, or that hold the fragment as one run whatever its case, and it
//! never accepts an excluded path.

use vstd::prelude::*;
use vstd::slice::slice_to_vec;
use vstd::utf8::{encode_utf8, valid_utf8};
use crate::error::IndexError;
use crate::order::key_views;
use crate::text::{path_keys, path_of_key};

verus! {

/// A dense automaton over bytes, as the automaton builder makes it. The
/// builder's own type is bounded by a trait of its crate and cannot be
/// declared, so the automaton is held here and stays opaque.
#[verifier::external_body]
pub struct RunAutomaton {
    inner: regex_automata::DenseDFA<Vec<usize>, usize>,
}

/// The byte strings in which an automaton finds a match.
pub uninterp spec fn automaton_language(automaton: RunAutomaton) -> Set<Seq<u8>>;

/// The byte strings in which the automaton of a pattern finds a match when
/// the case of letters does not count; none where the builder makes no
/// automaton of the pattern.
pub uninterp spec fn pattern_language(pattern: Seq<char>) -> Option<Set<Seq<u8>>>;

/// `dense::Builder::build` with `case_insensitive(true)`: compiles the pattern
/// into a dense automaton that is not anchored, so a match may stand anywhere
/// in the input. Where the builder refuses the pattern there is none.
#[verifier::external_body]
fn build_automaton(pattern: &str) -> (built: Option<RunAutomaton>)
    ensures
        built matches Some(automaton) ==> pattern_language(pattern@) == Some(
            automaton_language(automaton),
        ),
        built is None ==> pattern_language(pattern@) is None,
{
    let mut builder = regex_automata::dense::Builder::new();
    builder.case_insensitive(true);
    builder.build(pattern).ok().map(|inner| RunAutomaton { inner })
}

/// `DFA::is_match`: whether the automaton finds a match in the bytes.
#[verifier::external_body]
fn automaton_finds(automaton: &RunAutomaton, key: &[u8]) -> (found: bool)
    ensures
        found == automaton_language(*automaton).contains(key@),
{
    regex_automata::DFA::is_match(&automaton.inner, key)
}

/// The characters to which the syntax of patterns gives a meaning. Behind a
/// backslash each of them stands for itself.
pub open spec fn is_meta(c: char) -> bool {
    c == '\\' || c == '.' || c == '+' || c == '*' || c == '?' || c == '(' || c == ')' || c == '|'
        || c == '[' || c == ']' || c == '{' || c == '}' || c == '^' || c == '$' || c == '#'
        || c == '&' || c == '-' || c == '~'
}

/// What stands for one character in a pattern that is to match the character
/// itself: the character, behind a backslash where the syntax gives it a
/// meaning.
pub open spec fn escaped_char(c: char) -> Seq<char> {
    if is_meta(c) {
        seq!['\\', c]
    } else {
        seq![c]
    }
}

/// The pattern that matches the text itself, character by character.
pub open spec fn escaped(text: Seq<char>) -> Seq<char>
    decreases text.len(),
{
    if text.len() == 0 {
        Seq::empty()
    } else {
        escaped(text.drop_last()) + escaped_char(text.last())
    }
}

/// The pattern for the runs of a target: the target taken as text, with
/// anything before it and anything behind it.
pub open spec fn run_pattern(target: Seq<char>) -> Seq<char> {
    ".*"@ + escaped(target) + ".*"@
}

/// The byte strings that hold `target` as one run, whatever the case of its
/// letters; none where the builder makes no automaton for the target.
pub open spec fn run_language(target: Seq<char>) -> Option<Set<Seq<u8>>> {
    pattern_language(run_pattern(target))
}

/// The key holds `target` as one run, whatever the case of its letters, as
/// far as the automaton for the target tells; where there is no automaton,
/// no key does.
pub open spec fn run_accepts(target: Seq<char>, key: Seq<u8>) -> bool {
    match run_language(target) {
        Some(language) => language.contains(key),
        None => false,
    }
}

/// Whether the syntax of patterns gives the character a meaning.
pub fn is_meta_character(c: char) -> (meta: bool)
    ensures
        meta == is_meta(c),
{
    c == '\\' || c == '.' || c == '+' || c == '*' || c == '?' || c == '(' || c == ')' || c == '|'
        || c == '[' || c == ']' || c == '{' || c == '}' || c == '^' || c == '$' || c == '#'
        || c == '&' || c == '-' || c == '~'
}

/// Writes the pattern that matches the text itself: every character that the
/// syntax gives a meaning gets a backslash in front of it.
pub fn escape(text: &str) -> (pattern: String)
    ensures
        pattern@ == escaped(text@),
{
    let total = text.unicode_len();
    let mut pattern = String::new();
    let mut at: usize = 0;
    assert(text@.take(0) =~= Seq::<char>::empty());
    while at < total
        invariant
            at <= total,
            total == text@.len(),
            pattern@ == escaped(text@.take(at as int)),
        decreases total - at,
    {
        let c = text.get_char(at);
        proof {
            reveal_strlit("\\");
            assert("\\"@ =~= seq!['\\']);
            assert(text@.take(at + 1).drop_last() =~= text@.take(at as int));
            assert(text@.take(at + 1).last() == c);
            assert(text@.subrange(at as int, at + 1) =~= seq![c]);
        }
        let ghost before = pattern@;
        if is_meta_character(c) {
            pattern.append("\\");
        }
        pattern.append(text.substring_char(at, at + 1));
        assert(pattern@ =~= before + escaped_char(c));
        at += 1;
    }
    assert(text@.take(at as int) =~= text@);
    pattern
}

/// `places` says where in `key` each byte of `pattern` is found: one place
/// for each byte, every place behind the one before.
pub open spec fn embeds(pattern: Seq<u8>, key: Seq<u8>, places: Seq<int>) -> bool {
    &&& places.len() == pattern.len()
    &&& forall|i: int|
        0 <= i < places.len() ==> 0 <= #[trigger] places[i] < key.len() && key[places[i]]
            == pattern[i]
    &&& forall|i: int, j: int|
        0 <= i < j < places.len() ==> #[trigger] places[i] < #[trigger] places[j]
}

/// The bytes of `pattern` occur in `key` in their order, not necessarily side
/// by side.
pub open spec fn is_subsequence(pattern: Seq<u8>, key: Seq<u8>) -> bool {
    exists|places: Seq<int>| embeds(pattern, key, places)
}

/// A test on keys.
pub enum Matcher {
    /// Accepts the keys that hold these bytes in order.
    Subsequence { pattern: Vec<u8> },
    /// Accepts the keys in which the automaton finds a match.
    Run { automaton: RunAutomaton },
    /// Accepts this key and no other.
    Exact { key: Vec<u8> },
    /// Accepts what either accepts.
    Union(Box<Matcher>, Box<Matcher>),
    /// Accepts what both accept.
    Intersection(Box<Matcher>, Box<Matcher>),
    /// Accepts what the other refuses.
    Complement(Box<Matcher>),
}

impl Matcher {
    /// Whether the matcher accepts the key.
    pub open spec fn accepts(self, key: Seq<u8>) -> bool
        decreases self,
    {
        match self {
            Matcher::Subsequence { pattern } => is_subsequence(pattern@, key),
            Matcher::Run { automaton } => automaton_language(automaton).contains(key),
            Matcher::Exact { key: only } => only@ == key,
            Matcher::Union(left, right) => left.accepts(key) || right.accepts(key),
            Matcher::Intersection(left, right) => left.accepts(key) && right.accepts(key),
            Matcher::Complement(inner) => !inner.accepts(key),
        }
    }

    /// Tests a key.
    pub fn matches(&self, key: &[u8]) -> (accepted: bool)
        ensures
            accepted == self.accepts(key@),
        decreases self,
    {
        match self {
            Matcher::Subsequence { pattern } => holds_in_order(pattern.as_slice(), key),
            Matcher::Run { automaton } => automaton_finds(automaton, key),
            Matcher::Exact { key: only } => same_bytes(only.as_slice(), key),
            Matcher::Union(left, right) => left.matches(key) || right.matches(key),
            Matcher::Intersection(left, right) => left.matches(key) && right.matches(key),
            Matcher::Complement(inner) => !inner.matches(key),
        }
    }
}

/// Whether two byte strings are the same.
pub fn same_bytes(a: &[u8], b: &[u8]) -> (same: bool)
    ensures
        same == (a@ == b@),
{
    if a.len() != b.len() {
        return false;
    }
    let mut at: usize = 0;
    while at < a.len()
        invariant
            at <= a.len(),
            a.len() == b.len(),
            forall|i: int| 0 <= i < at ==> a@[i] == b@[i],
        decreases a.len() - at,
    {
        if a[at] != b[at] {
            return false;
        }
        at += 1;
    }
    assert(a@ =~= b@);
    true
}

/// Whether the bytes of `pattern` occur in `key` in their order. Each byte of
/// the pattern is taken at the first place where it can stand; where that
/// fails, no other choice of places succeeds.
pub fn holds_in_order(pattern: &[u8], key: &[u8]) -> (held: bool)
    ensures
        held == is_subsequence(pattern@, key@),
{
    let mut matched: usize = 0;
    let mut at: usize = 0;
    let ghost mut places: Seq<int> = Seq::empty();
    proof {
        let first = pattern@.take(1);
        let nothing = key@.take(0);
        if pattern.len() > 0 && is_subsequence(first, nothing) {
            let other = choose|other: Seq<int>| embeds(first, nothing, other);
            assert(0 <= other[0] < nothing.len());
        }
        assert(embeds(pattern@.take(0), nothing, places));
    }
    while at < key.len() && matched < pattern.len()
        invariant
            at <= key.len(),
            matched <= pattern.len(),
            embeds(pattern@.take(matched as int), key@.take(at as int), places),
            matched < pattern.len() ==> !is_subsequence(
                pattern@.take(matched + 1),
                key@.take(at as int),
            ),
        decreases key.len() - at,
    {
        if pattern[matched] == key[at] {
            proof {
                lemma_next_place_taken(pattern@, key@, matched as int, at as int, places);
                places = places.push(at as int);
            }
            matched += 1;
        } else {
            proof {
                lemma_next_place_skipped(pattern@, key@, matched as int, at as int, places);
            }
        }
        at += 1;
    }
    proof {
        if matched == pattern.len() {
            assert(pattern@.take(matched as int) =~= pattern@);
            assert(embeds(pattern@, key@, places));
        } else {
            assert(key@.take(at as int) =~= key@);
            if is_subsequence(pattern@, key@) {
                let other = choose|other: Seq<int>| embeds(pattern@, key@, other);
                lemma_embeds_prefix(pattern@, key@, other, matched + 1);
            }
        }
    }
    matched == pattern.len()
}

/// Where a pattern is found in a key, each of its prefixes is found there
/// too, at the first of the same places.
proof fn lemma_embeds_prefix(pattern: Seq<u8>, key: Seq<u8>, places: Seq<int>, length: int)
    requires
        embeds(pattern, key, places),
        0 <= length <= pattern.len(),
    ensures
        embeds(pattern.take(length), key, places.take(length)),
{
    let short = places.take(length);
    assert forall|i: int| 0 <= i < short.len() implies 0 <= #[trigger] short[i] < key.len()
        && key[short[i]] == pattern.take(length)[i] by {
        assert(short[i] == places[i]);
    }
    assert forall|i: int, j: int| 0 <= i < j < short.len() implies #[trigger] short[i]
        < #[trigger] short[j] by {
        assert(short[i] == places[i]);
        assert(short[j] == places[j]);
    }
}

/// The step that takes a place: the byte at `at` is the next byte of the
/// pattern. The places grow by `at`, and the pattern with one byte more
/// cannot be found in the key up to and with `at`.
proof fn lemma_next_place_taken(
    pattern: Seq<u8>,
    key: Seq<u8>,
    matched: int,
    at: int,
    places: Seq<int>,
)
    requires
        0 <= matched < pattern.len(),
        0 <= at < key.len(),
        pattern[matched] == key[at],
        embeds(pattern.take(matched), key.take(at), places),
        !is_subsequence(pattern.take(matched + 1), key.take(at)),
    ensures
        embeds(pattern.take(matched + 1), key.take(at + 1), places.push(at)),
        matched + 1 < pattern.len() ==> !is_subsequence(
            pattern.take(matched + 2),
            key.take(at + 1),
        ),
{
    let grown = places.push(at);
    let front = key.take(at);
    let wider = key.take(at + 1);
    let found = pattern.take(matched);
    let next = pattern.take(matched + 1);
    assert forall|i: int| 0 <= i < grown.len() implies 0 <= #[trigger] grown[i] < wider.len()
        && wider[grown[i]] == next[i] by {
        if i < matched {
            assert(grown[i] == places[i]);
            assert(front[places[i]] == found[i]);
        }
    }
    assert forall|i: int, j: int| 0 <= i < j < grown.len() implies #[trigger] grown[i]
        < #[trigger] grown[j] by {
        assert(grown[i] == places[i]);
        if j < matched {
            assert(grown[j] == places[j]);
        }
    }
    let longer = pattern.take(matched + 2);
    if matched + 1 < pattern.len() && is_subsequence(longer, wider) {
        let other = choose|other: Seq<int>| embeds(longer, wider, other);
        let short = other.take(matched + 1);
        assert forall|i: int| 0 <= i < short.len() implies 0 <= #[trigger] short[i] < front.len()
            && front[short[i]] == next[i] by {
            assert(short[i] == other[i]);
            assert(other[i] < other[matched + 1]);
            assert(wider[other[i]] == longer[i]);
        }
        assert forall|i: int, j: int| 0 <= i < j < short.len() implies #[trigger] short[i]
            < #[trigger] short[j] by {
            assert(short[i] == other[i]);
            assert(short[j] == other[j]);
        }
        assert(embeds(next, front, short));
    }
}

/// The step that takes no place: the byte at `at` is not the next byte of the
/// pattern. The places stay, and the pattern with one byte more still cannot
/// be found in the key up to and with `at`.
proof fn lemma_next_place_skipped(
    pattern: Seq<u8>,
    key: Seq<u8>,
    matched: int,
    at: int,
    places: Seq<int>,
)
    requires
        0 <= matched < pattern.len(),
        0 <= at < key.len(),
        pattern[matched] != key[at],
        embeds(pattern.take(matched), key.take(at), places),
        !is_subsequence(pattern.take(matched + 1), key.take(at)),
    ensures
        embeds(pattern.take(matched), key.take(at + 1), places),
        !is_subsequence(pattern.take(matched + 1), key.take(at + 1)),
{
    let front = key.take(at);
    let wider = key.take(at + 1);
    let found = pattern.take(matched);
    let next = pattern.take(matched + 1);
    assert forall|i: int| 0 <= i < places.len() implies 0 <= #[trigger] places[i] < wider.len()
        && wider[places[i]] == found[i] by {
        assert(front[places[i]] == found[i]);
    }
    if is_subsequence(next, wider) {
        let other = choose|other: Seq<int>| embeds(next, wider, other);
        assert(wider[other[matched]] == next[matched]);
        assert(other[matched] < at);
        assert forall|i: int| 0 <= i < other.len() implies 0 <= #[trigger] other[i] < front.len()
            && front[other[i]] == next[i] by {
            if i < matched {
                assert(other[i] < other[matched]);
            }
            assert(wider[other[i]] == next[i]);
        }
        assert(embeds(next, front, other));
    }
}

/// What the query for `target` accepts: a key that holds the target's bytes
/// in order or holds the target as one run whatever its case, unless it is
/// the excluded path.
pub open spec fn query_accepts(target: Seq<char>, exclude: Option<Seq<char>>, key: Seq<u8>) -> bool {
    &&& is_subsequence(encode_utf8(target), key) || run_accepts(target, key)
    &&& exclude matches Some(path) ==> key != encode_utf8(path)
}

/// The text of a path that may be absent.
pub open spec fn text_view(text: Option<&str>) -> Option<Seq<char>> {
    match text {
        Some(inner) => Some(inner@),
        None => None,
    }
}

/// Puts the matcher for a search together: the union of the subsequence test
/// and the run test for the target and, where a path is excluded, its
/// intersection with the complement of the exact test for that path. The
/// target is taken as text: no character of it has a meaning of its own.
pub fn build_query(target: &str, exclude: Option<&str>) -> (query: Matcher)
    ensures
        forall|key: Seq<u8>| query.accepts(key) == query_accepts(target@, text_view(exclude), key),
{
    let mut pattern = String::from_str(".*");
    let literal = escape(target);
    pattern.append(literal.as_str());
    pattern.append(".*");
    let subsequence = Matcher::Subsequence { pattern: slice_to_vec(target.as_bytes()) };
    let either = match build_automaton(pattern.as_str()) {
        Some(automaton) => Matcher::Union(
            Box::new(subsequence),
            Box::new(Matcher::Run { automaton }),
        ),
        None => subsequence,
    };
    proof {
        reveal_with_fuel(Matcher::accepts, 4);
    }
    match exclude {
        None => either,
        Some(path) => {
            let excluded = Matcher::Exact { key: slice_to_vec(path.as_bytes()) };
            let filter = Matcher::Complement(Box::new(excluded));
            Matcher::Intersection(Box::new(either), Box::new(filter))
        },
    }
}

/// The keys that a matcher accepts, in their order.
pub open spec fn selected(keys: Seq<Seq<u8>>, query: Matcher) -> Seq<Seq<u8>> {
    keys.filter(|key: Seq<u8>| query.accepts(key))
}

/// Every key that the matcher accepts can be read as a path.
pub open spec fn accepted_are_text(keys: Seq<Seq<u8>>, query: Matcher) -> bool {
    forall|i: int| 0 <= i < keys.len() && query.accepts(#[trigger] keys[i]) ==> valid_utf8(keys[i])
}

/// Takes from the keys those that the matcher accepts, as paths and in their
/// order. An accepted key that is no text is reported as corrupt.
pub fn select(keys: &Vec<Vec<u8>>, query: &Matcher) -> (result: Result<Vec<String>, IndexError>)
    ensures
        result is Ok <==> accepted_are_text(key_views(keys@), *query),
        result matches Ok(found) ==> path_keys(found@) == selected(key_views(keys@), *query),
        result matches Err(error) ==> error is CorruptIndex,
{
    let ghost accepted = |key: Seq<u8>| query.accepts(key);
    let mut found: Vec<String> = Vec::new();
    let mut at: usize = 0;
    proof {
        reveal(Seq::filter);
        assert(key_views(keys@).take(0) =~= Seq::<Seq<u8>>::empty());
        assert(path_keys(found@) =~= Seq::<Seq<u8>>::empty());
    }
    while at < keys.len()
        invariant
            at <= keys.len(),
            accepted == |key: Seq<u8>| query.accepts(key),
            path_keys(found@) == key_views(keys@).take(at as int).filter(accepted),
            accepted_are_text(key_views(keys@).take(at as int), *query),
        decreases keys.len() - at,
    {
        proof {
            reveal(Seq::filter);
            let front = key_views(keys@).take(at + 1);
            assert(front.drop_last() =~= key_views(keys@).take(at as int));
            assert(front.last() == keys@[at as int]@);
        }
        if query.matches(keys[at].as_slice()) {
            match path_of_key(&keys[at]) {
                Some(path) => {
                    let ghost before = found@;
                    found.push(path);
                    assert(path_keys(found@) =~= path_keys(before).push(keys@[at as int]@));
                },
                None => {
                    assert(key_views(keys@)[at as int] == keys@[at as int]@);
                    return Err(
                        IndexError::CorruptIndex {
                            message: String::from_str("a stored path is not valid UTF-8"),
                        },
                    );
                },
            }
        }
        proof {
            let front = key_views(keys@).take(at + 1);
            assert forall|i: int| 0 <= i < front.len() && query.accepts(
                #[trigger] front[i],
            ) implies valid_utf8(front[i]) by {
                if i < at {
                    assert(front[i] == key_views(keys@).take(at as int)[i]);
                }
            }
        }
        at += 1;
    }
    assert(key_views(keys@).take(at as int) =~= key_views(keys@));
    Ok(found)
}

/// A query never accepts the path that it excludes.
pub proof fn lemma_excluded_is_refused(target: Seq<char>, path: Seq<char>)
    ensures
        !query_accepts(target, Some(path), encode_utf8(path)),
{
}

/// Excluding a path takes that path away and changes nothing else.
pub proof fn lemma_exclusion_only_removes(target: Seq<char>, path: Seq<char>, key: Seq<u8>)
    ensures
        query_accepts(target, Some(path), key) <==> query_accepts(target, None, key) && key
            != encode_utf8(path),
{
}

/// A key that holds the bytes of a pattern side by side holds them in order.
pub proof fn lemma_run_is_subsequence(pattern: Seq<u8>, key: Seq<u8>, start: int)
    requires
        0 <= start,
        start + pattern.len() <= key.len(),
        key.subrange(start, start + pattern.len()) == pattern,
    ensures
        is_subsequence(pattern, key),
{
    let places = Seq::new(pattern.len(), |i: int| start + i);
    assert forall|i: int| 0 <= i < places.len() implies 0 <= #[trigger] places[i] < key.len()
        && key[places[i]] == pattern[i] by {
        assert(key.subrange(start, start + pattern.len())[i] == key[start + i]);
    }
    assert(embeds(pattern, key, places));
}

/// A key that holds the target as it is written, side by side, is accepted
/// by the query for the target, whatever characters the target is made of.
pub proof fn lemma_written_run_is_accepted(target: Seq<char>, key: Seq<u8>, start: int)
    requires
        0 <= start,
        start + encode_utf8(target).len() <= key.len(),
        key.subrange(start, start + encode_utf8(target).len()) == encode_utf8(target),
    ensures
        query_accepts(target, None, key),
{
    lemma_run_is_subsequence(encode_utf8(target), key, start);
}

} // verus!
