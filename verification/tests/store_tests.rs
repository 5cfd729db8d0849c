use s3_demo::store::{StoreError, StoreModel};

#[test]
fn create_then_find() {
    let mut store = StoreModel::empty();
    let name = String::from("test-bucket-1");
    assert_eq!(store.create_bucket(&name), Ok(()));
    assert!(store.find_bucket(&name));
}

#[test]
fn create_taken_name_fails() {
    let mut store = StoreModel::empty();
    let name = String::from("test-bucket-1");
    assert_eq!(store.create_bucket(&name), Ok(()));
    assert_eq!(store.create_bucket(&name), Err(StoreError::BucketAlreadyExists));
}

#[test]
fn delete_fresh_empty_bucket_succeeds() {
    let mut store = StoreModel::empty();
    let name = String::from("test-bucket-1");
    assert_eq!(store.create_bucket(&name), Ok(()));
    assert_eq!(store.delete_bucket(&name), Ok(()));
    assert!(!store.find_bucket(&name));
}

#[test]
fn delete_missing_bucket_fails() {
    let mut store = StoreModel::empty();
    assert_eq!(
        store.delete_bucket(&String::from("nowhere")),
        Err(StoreError::NoSuchBucket)
    );
}

#[test]
fn delete_non_empty_bucket_fails() {
    let mut store = StoreModel::empty();
    let name = String::from("test-bucket-1");
    assert_eq!(store.create_bucket(&name), Ok(()));
    assert_eq!(
        store.put_object(&name, &String::from("report.txt"), b"hello".to_vec()),
        Ok(())
    );
    assert_eq!(store.delete_bucket(&name), Err(StoreError::BucketNotEmpty));
    assert!(store.find_bucket(&name));
}

#[test]
fn put_object_to_missing_bucket_fails() {
    let mut store = StoreModel::empty();
    assert_eq!(
        store.put_object(&String::from("nowhere"), &String::from("k"), b"v".to_vec()),
        Err(StoreError::NoSuchBucket)
    );
}

#[test]
fn put_then_list_shows_key_and_size() {
    let mut store = StoreModel::empty();
    let name = String::from("test-bucket-1");
    assert_eq!(store.create_bucket(&name), Ok(()));
    assert_eq!(
        store.put_object(&name, &String::from("report.txt"), b"hello".to_vec()),
        Ok(())
    );
    let page = store.list_objects(&name, &String::from("foo")).unwrap();
    assert_eq!(page.len(), 1);
    assert_eq!(page[0].key, "report.txt");
    assert_eq!(page[0].size, 5);
}

#[test]
fn put_overwrites_body_of_same_key() {
    let mut store = StoreModel::empty();
    let name = String::from("test-bucket-1");
    assert_eq!(store.create_bucket(&name), Ok(()));
    assert_eq!(
        store.put_object(&name, &String::from("report.txt"), b"hello".to_vec()),
        Ok(())
    );
    assert_eq!(
        store.put_object(&name, &String::from("report.txt"), b"hello, world".to_vec()),
        Ok(())
    );
    let page = store.list_objects(&name, &String::from("foo")).unwrap();
    assert_eq!(page.len(), 1);
    assert_eq!(page[0].key, "report.txt");
    assert_eq!(page[0].size, 12);
}

#[test]
fn listing_starts_strictly_after_cursor() {
    let mut store = StoreModel::empty();
    let name = String::from("test-bucket-1");
    assert_eq!(store.create_bucket(&name), Ok(()));
    assert_eq!(store.put_object(&name, &String::from("bar"), b"1".to_vec()), Ok(()));
    assert_eq!(store.put_object(&name, &String::from("foo"), b"22".to_vec()), Ok(()));
    assert_eq!(store.put_object(&name, &String::from("qux"), b"333".to_vec()), Ok(()));
    let page = store.list_objects(&name, &String::from("foo")).unwrap();
    assert_eq!(page.len(), 1);
    assert_eq!(page[0].key, "qux");
    assert_eq!(page[0].size, 3);
}

#[test]
fn list_missing_bucket_fails() {
    let store = StoreModel::empty();
    assert_eq!(
        store.list_objects(&String::from("nowhere"), &String::from("foo")).unwrap_err(),
        StoreError::NoSuchBucket
    );
}

#[test]
fn delete_object_removes_entry() {
    let mut store = StoreModel::empty();
    let name = String::from("test-bucket-1");
    assert_eq!(store.create_bucket(&name), Ok(()));
    assert_eq!(
        store.put_object(&name, &String::from("report.txt"), b"hello".to_vec()),
        Ok(())
    );
    assert_eq!(store.delete_object(&name, &String::from("report.txt")), Ok(()));
    let page = store.list_objects(&name, &String::from("foo")).unwrap();
    assert!(page.is_empty());
}

#[test]
fn delete_absent_key_is_a_quiet_success() {
    let mut store = StoreModel::empty();
    let name = String::from("test-bucket-1");
    assert_eq!(store.create_bucket(&name), Ok(()));
    assert_eq!(store.delete_object(&name, &String::from("report.txt")), Ok(()));
}

#[test]
fn delete_object_in_missing_bucket_fails() {
    let mut store = StoreModel::empty();
    assert_eq!(
        store.delete_object(&String::from("nowhere"), &String::from("k")),
        Err(StoreError::NoSuchBucket)
    );
}

#[test]
fn full_bucket_lifecycle_scenario() {
    let mut store = StoreModel::empty();
    let name = String::from("test-bucket-1");
    let key = String::from("report.txt");
    assert_eq!(store.create_bucket(&name), Ok(()));
    assert_eq!(store.put_object(&name, &key, b"hello".to_vec()), Ok(()));
    let page = store.list_objects(&name, &String::from("foo")).unwrap();
    assert_eq!(page.len(), 1);
    assert_eq!(page[0].key, "report.txt");
    assert_eq!(page[0].size, 5);
    assert_eq!(store.delete_object(&name, &key), Ok(()));
    assert_eq!(store.delete_bucket(&name), Ok(()));
    assert!(!store.find_bucket(&name));
}
