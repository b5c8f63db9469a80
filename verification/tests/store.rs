use storm::store::{check_store, StoreCheck};

#[test]
fn an_empty_path_is_undefined() {
    for bits in 0..8 {
        let (a, b, c) = (bits & 1 != 0, bits & 2 != 0, bits & 4 != 0);
        assert_eq!(check_store(true, a, b, c), StoreCheck::Undefined);
    }
}

#[test]
fn a_directory_is_usable() {
    assert_eq!(check_store(false, true, true, true), StoreCheck::Usable);
    assert_eq!(check_store(false, true, true, false), StoreCheck::Usable);
}

#[test]
fn a_file_is_no_store() {
    assert_eq!(check_store(false, false, true, true), StoreCheck::NotADirectory);
    assert_eq!(check_store(false, false, true, false), StoreCheck::NotADirectory);
}

#[test]
fn a_missing_store_is_made_where_its_parent_is() {
    assert_eq!(check_store(false, false, false, true), StoreCheck::Create);
    assert_eq!(check_store(false, false, false, false), StoreCheck::NoParent);
}
