use pdf_extractor::registry::{AddPlan, CollectionInfo, CollectionRegistry, RegistryError};

/// Adds a collection for a folder that is there.
fn add(reg: &mut CollectionRegistry, folder: &str) -> i64 {
    match reg.add_collection(folder, Some(folder)).unwrap() {
        AddPlan::Known(id) => id,
        AddPlan::Create(id) => {
            let dir = reg.data_dir(id).join("/");
            reg.insert_collection(id, folder, &dir, "2024-01-01 00:00:00").unwrap()
        }
    }
}

#[test]
fn test_create_registry() {
    let reg = CollectionRegistry::open("/base");
    assert!(reg.list_collections().is_empty());
}

#[test]
fn test_add_collection() {
    let mut reg = CollectionRegistry::open("/base");
    let id = add(&mut reg, "/books");
    assert_eq!(id, 1);
    let list = reg.list_collections();
    assert_eq!(list.len(), 1);
    assert_eq!(list[0].id, 1);
    assert_eq!(list[0].doc_count, 0);
}

#[test]
fn test_add_duplicate_collection() {
    let mut reg = CollectionRegistry::open("/base");
    let id1 = add(&mut reg, "/books");
    let id2 = add(&mut reg, "/books");
    assert_eq!(id1, id2);
}

#[test]
fn test_remove_collection() {
    let mut reg = CollectionRegistry::open("/base");
    let id = add(&mut reg, "/books");
    assert_eq!(reg.list_collections().len(), 1);
    assert_eq!(reg.remove_collection(id), Some("/base/1".to_string()));
    assert_eq!(reg.list_collections().len(), 0);
    assert_eq!(reg.remove_collection(id), None);
}

#[test]
fn test_multiple_collections() {
    let mut reg = CollectionRegistry::open("/base");
    for i in 0..3 {
        add(&mut reg, &format!("/books{}", i));
    }
    assert_eq!(reg.list_collections().len(), 3);
    let ids: Vec<i64> = reg.list_collections().iter().map(|c| c.id).collect();
    assert_eq!(ids, vec![1, 2, 3]);
}

#[test]
fn test_update_metadata() {
    let mut reg = CollectionRegistry::open("/base");
    let id = add(&mut reg, "/books");
    reg.update_index_metadata(id, 42, "2024-01-02 00:00:00");
    let coll = reg.get_collection(id).unwrap();
    assert_eq!(coll.doc_count, 42);
    assert!(coll.last_indexed.is_some());
}

#[test]
fn test_get_nonexistent_collection() {
    let reg = CollectionRegistry::open("/base");
    assert!(reg.get_collection(999).is_err());
}

#[test]
fn test_add_nonexistent_books_folder() {
    let reg = CollectionRegistry::open("/base");
    let e = reg.add_collection("/nowhere", None).unwrap_err();
    assert!(matches!(&e, RegistryError::NoFolder { path } if path == "/nowhere"));
    assert_eq!(e.message(), "Books folder does not exist: /nowhere");
}

#[test]
fn the_files_of_a_collection_have_their_places() {
    let reg = CollectionRegistry::open("/base");
    assert_eq!(reg.data_dir(4), vec!["/base", "4"]);
    assert_eq!(reg.db_path(4), vec!["/base", "4", ".pdf_extractor", "jobs.db"]);
    assert_eq!(reg.index_path(4), vec!["/base", "4", ".pdf_extractor", "index"]);
    assert_eq!(reg.output_path(4), vec!["/base", "4", ".pdf_extractor", "output.jsonl"]);
    assert_eq!(reg.log_path(4), vec!["/base", "4", ".pdf_extractor", "extractor.log"]);
}

#[test]
fn an_id_is_not_given_twice_while_it_is_in_use() {
    let mut reg = CollectionRegistry::open("/base");
    add(&mut reg, "/a");
    let b = add(&mut reg, "/b");
    reg.remove_collection(1);
    assert_eq!(add(&mut reg, "/c"), b + 1);
    assert!(reg.insert_collection(b, "/d", "/x", "now").is_err());
}

#[test]
fn rows_with_one_id_twice_are_no_registry() {
    let row = |id: i64, folder: &str| CollectionInfo {
        id,
        books_folder: folder.to_string(),
        label: None,
        data_dir: format!("/base/{}", id),
        doc_count: 0,
        last_indexed: None,
        created_at: "now".to_string(),
    };
    assert!(CollectionRegistry::from_rows("/base", vec![row(1, "/a"), row(2, "/b")]).is_some());
    assert!(CollectionRegistry::from_rows("/base", vec![row(2, "/a"), row(2, "/b")]).is_none());
}
