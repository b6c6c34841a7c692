use scotty::error::IndexError;
use scotty::index::Index;
use std::path::PathBuf;
use tempfile::tempdir;

fn get_temporary_index() -> Index {
    let db_config = sled::Config::new().temporary(true);
    Index::open(db_config).unwrap()
}

#[test]
fn index_add_absolute_directory() {
    let mut index = get_temporary_index();
    let input_dir = tempdir().unwrap();
    let input = input_dir.path().to_str().unwrap();
    assert!(index.add(input).is_ok());
    assert!(index.has_path(input));
    input_dir.close().unwrap();
}

#[test]
fn index_add_relative_directory() {
    let mut index = get_temporary_index();
    let input = PathBuf::from("src");
    assert_eq!(
        index.add(input.to_str().unwrap()).unwrap_err(),
        IndexError::RelativePath {
            path: input.to_string_lossy().into_owned()
        }
    );
    assert!(!index.has_path(input.to_str().unwrap()))
}

#[test]
fn index_add_file() {
    let mut index = get_temporary_index();
    let input_dir = tempdir().unwrap();
    let file = tempfile::Builder::new()
        .prefix("foo")
        .suffix(".txt")
        .tempfile_in(input_dir.path())
        .unwrap();
    let input = file.path().to_path_buf();
    assert_eq!(
        index.add(input.to_str().unwrap()).unwrap_err(),
        IndexError::PathDoesNotExist {
            path: input.to_string_lossy().into_owned()
        }
    );
    assert!(!index.has_path(input.to_str().unwrap()));
    file.close().unwrap();
    input_dir.close().unwrap()
}

#[test]
fn index_add_non_existing_directory() {
    let mut index = get_temporary_index();
    let input = PathBuf::from("foo");
    assert_eq!(
        index.add(input.to_str().unwrap()).unwrap_err(),
        IndexError::PathDoesNotExist {
            path: "foo".to_owned()
        }
    );
    assert!(!index.has_path(input.to_str().unwrap()))
}

#[test]
fn index_add_non_canonical_absolute_directory() {
    let mut index = get_temporary_index();
    let input_dir = tempdir().unwrap();
    let input = input_dir.path().join("..");
    assert!(index.add(input.to_str().unwrap()).is_ok());
    assert!(index.has_path(input.to_str().unwrap()));
    input_dir.close().unwrap()
}

#[test]
fn index_delete_empty_index() {
    let mut index = get_temporary_index();

    let input = PathBuf::from("foo");

    assert!(index.delete(input.to_str().unwrap()).is_ok());
    assert!(!index.has_path(input.to_str().unwrap()))
}

#[test]
fn index_delete_indexed_path() {
    let mut index = get_temporary_index();
    let input_dir = tempdir().unwrap();
    let input = input_dir.path().to_str().unwrap();

    index.add(input).unwrap();

    assert!(index.delete(input).is_ok());
    assert!(!index.has_path(input));
    input_dir.close().unwrap()
}

#[test]
fn index_delete_non_indexed_path() {
    let mut index = get_temporary_index();
    let input_dir_1 = tempdir().unwrap();
    let input_dir_2 = tempdir().unwrap();
    let path1 = input_dir_1.path().to_str().unwrap();
    let path2 = input_dir_2.path().to_str().unwrap();
    let input = PathBuf::from("foo");

    index.add(path1).unwrap();
    index.add(path2).unwrap();

    assert!(index.delete(input.to_str().unwrap()).is_ok());
    assert!(!index.has_path(input.to_str().unwrap()));

    input_dir_1.close().unwrap();
    input_dir_2.close().unwrap()
}

#[test]
fn index_find_one_empty_index() {
    let index = get_temporary_index();
    let pattern = "abcd";

    assert!(index.find_one(pattern, None).unwrap().is_none())
}

#[test]
fn index_find_one_empty_index_empty_pattern() {
    let index = get_temporary_index();
    let pattern = "";

    assert!(index.find_one(pattern, None).unwrap().is_none())
}

#[test]
fn index_find_one_non_empty_index_found() {
    let mut index = get_temporary_index();
    let indexed_dir = tempdir().unwrap();
    let path_buf = indexed_dir.path();
    let pattern = path_buf.file_name().unwrap().to_str().unwrap();

    index.add(path_buf.to_str().unwrap()).unwrap();

    assert_eq!(
        index.find_one(pattern, None).unwrap(),
        Some(path_buf.to_str().unwrap().to_owned())
    );

    indexed_dir.close().unwrap()
}

#[test]
fn index_find_one_non_empty_index_not_found() {
    let mut index = get_temporary_index();
    let indexed_dir = tempdir().unwrap();
    let path_buf = indexed_dir.path();
    let pattern = "#!";

    index.add(path_buf.to_str().unwrap()).unwrap();

    assert!(index.find_one(pattern, None).unwrap().is_none());

    indexed_dir.close().unwrap()
}

#[test]
fn index_find_one_non_empty_index_empty_pattern() {
    let mut index = get_temporary_index();
    let indexed_dir = tempdir().unwrap();
    let path_buf = indexed_dir.path();
    let pattern = "";

    index.add(path_buf.to_str().unwrap()).unwrap();

    assert!(index.find_one(pattern, None).unwrap().is_none());

    indexed_dir.close().unwrap()
}

#[test]
fn index_find_one_non_empty_index_found_excluded() {
    let mut index = get_temporary_index();
    let indexed_dir = tempdir().unwrap();
    let path_buf = indexed_dir.path();
    let pattern = path_buf.file_name().unwrap().to_str().unwrap();

    index.add(path_buf.to_str().unwrap()).unwrap();

    assert!(index
        .find_one(pattern, Some(path_buf.to_str().unwrap()))
        .unwrap()
        .is_none());

    indexed_dir.close().unwrap()
}

#[test]
fn index_list_empty() {
    let index = get_temporary_index();

    let list = index.list().unwrap();

    assert!(list.is_empty());
}

#[test]
fn index_list_not_empty() {
    let mut index = get_temporary_index();

    let input_dir_1 = tempdir().unwrap();
    let input_dir_2 = tempdir().unwrap();
    let path1 = input_dir_1.path().to_str().unwrap();
    let path2 = input_dir_2.path().to_str().unwrap();

    index.add(path1).unwrap();
    index.add(path2).unwrap();

    let mut list = index.list().unwrap();
    list.sort();

    // The entries are ordered by their timestamp first
    assert_eq!(list[0].path, path1);
    assert_eq!(list[1].path, path2);

    input_dir_1.close().unwrap();
    input_dir_2.close().unwrap()
}
