use scotty::membership::{merge_fst_sets, remove_fst_set, PathSet};

fn set_of(keys: &[&str]) -> PathSet {
    let keys: Vec<Vec<u8>> = keys.iter().map(|key| key.as_bytes().to_vec()).collect();
    PathSet::from_keys(&keys).unwrap()
}

fn strs_of(set: &PathSet) -> Vec<String> {
    set.keys().into_iter().map(|key| String::from_utf8(key).unwrap()).collect()
}

fn is_subset(set: &PathSet, of: &PathSet) -> bool {
    let others = of.keys();
    set.keys().iter().all(|key| others.contains(key))
}

#[test]
fn merge_fst_sets_both_empty() {
    let fst1 = PathSet::new();
    let fst2 = PathSet::new();

    let result = merge_fst_sets(&fst1, &fst2).unwrap();

    assert!(result.is_empty())
}

#[test]
fn merge_fst_sets_one_empty() {
    let fst1 = PathSet::new();
    let fst2 = set_of(&["bar", "foo"]);

    let result = merge_fst_sets(&fst1, &fst2).unwrap();

    assert_eq!(result.len(), fst2.len());
    assert!(is_subset(&result, &fst2))
}

#[test]
fn merge_fst_sets_no_empty() {
    let fst1 = set_of(&["abc", "def"]);
    let fst2 = set_of(&["bar", "foo"]);

    let result = merge_fst_sets(&fst1, &fst2).unwrap();

    assert_eq!(strs_of(&result), vec!["abc", "bar", "def", "foo"])
}

#[test]
fn remove_fst_set_both_empty() {
    let fst1 = PathSet::new();
    let fst2 = PathSet::new();

    let result = remove_fst_set(&fst1, &fst2).unwrap();

    assert!(result.is_empty())
}

#[test]
fn remove_fst_set_second_empty() {
    let fst1 = set_of(&["bar", "foo"]);
    let fst2 = PathSet::new();

    let result = remove_fst_set(&fst1, &fst2).unwrap();

    assert_eq!(result.len(), fst1.len());
    assert!(is_subset(&result, &fst1))
}

#[test]
fn remove_fst_set_first_empty() {
    let fst1 = PathSet::new();
    let fst2 = set_of(&["bar", "foo"]);

    let result = remove_fst_set(&fst1, &fst2).unwrap();

    assert!(result.is_empty())
}

#[test]
fn remove_fst_set_no_empty_no_overlap() {
    let fst1 = set_of(&["abc", "def"]);
    let fst2 = set_of(&["bar", "foo"]);

    let result = remove_fst_set(&fst1, &fst2).unwrap();

    assert_eq!(strs_of(&result), vec!["abc", "def"])
}

#[test]
fn remove_fst_set_no_empty_some_overlap() {
    let fst1 = set_of(&["abc", "def"]);
    let fst2 = set_of(&["abc"]);

    let result = remove_fst_set(&fst1, &fst2).unwrap();

    assert_eq!(strs_of(&result), vec!["def"])
}

#[test]
fn remove_fst_set_no_empty_full_overlap() {
    let fst1 = set_of(&["abc", "def"]);
    let fst2 = set_of(&["abc", "def"]);

    let result = remove_fst_set(&fst1, &fst2).unwrap();

    assert!(result.is_empty())
}

#[test]
fn merge_is_the_same_from_either_side() {
    let fst1 = set_of(&["abc", "def", "zzz"]);
    let fst2 = set_of(&["bar", "def"]);

    let one = merge_fst_sets(&fst1, &fst2).unwrap();
    let other = merge_fst_sets(&fst2, &fst1).unwrap();

    assert_eq!(strs_of(&one), vec!["abc", "bar", "def", "zzz"]);
    assert_eq!(one.keys(), other.keys())
}

#[test]
fn merge_with_empty_leaves_the_set() {
    let set = set_of(&["/a", "/b/c"]);

    let left = merge_fst_sets(&PathSet::new(), &set).unwrap();
    let right = merge_fst_sets(&set, &PathSet::new()).unwrap();

    assert_eq!(left.keys(), set.keys());
    assert_eq!(right.keys(), set.keys())
}

#[test]
fn remove_self_leaves_nothing() {
    let set = set_of(&["/a", "/b/c", "/d"]);

    let result = remove_fst_set(&set, &set).unwrap();

    assert_eq!(result.len(), 0);
    assert_eq!(result.keys(), Vec::<Vec<u8>>::new())
}

#[test]
fn single_holds_one_key() {
    let set = PathSet::single(b"/home/user").unwrap();

    assert_eq!(set.keys(), vec![b"/home/user".to_vec()]);
    assert_eq!(set.len(), 1);
    assert!(!set.is_empty())
}

#[test]
fn from_keys_takes_a_repeated_key_once() {
    let keys = vec![b"a".to_vec(), b"a".to_vec(), b"b".to_vec()];

    let set = PathSet::from_keys(&keys).unwrap();

    assert_eq!(set.keys(), vec![b"a".to_vec(), b"b".to_vec()])
}

#[test]
fn from_keys_refuses_keys_out_of_order() {
    let keys = vec![b"b".to_vec(), b"a".to_vec()];

    let result = PathSet::from_keys(&keys);

    assert!(matches!(result, Err(scotty::error::IndexError::CorruptIndex { .. })))
}

#[test]
fn image_round_trip_keeps_the_keys() {
    let set = set_of(&["/home/a", "/home/b", "/var"]);

    let image = set.to_image();
    assert_ne!(image, b"/home/a".to_vec());
    let back = fst::Set::new(image).unwrap();

    assert_eq!(back.stream().into_bytes(), set.keys())
}

#[test]
fn remove_undoes_merge() {
    let set = set_of(&["/a", "/c"]);
    let delta = PathSet::single(b"/b").unwrap();

    let merged = merge_fst_sets(&set, &delta).unwrap();
    let back = remove_fst_set(&merged, &delta).unwrap();

    assert_eq!(strs_of(&merged), vec!["/a", "/b", "/c"]);
    assert_eq!(back.keys(), set.keys())
}
