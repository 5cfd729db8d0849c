use s3_demo::facade::{Region, S3Demo, bucket_listed, resolve_region};

#[test]
fn resolve_region_default() {
    let region = resolve_region(None);
    assert!(matches!(region, Region::UsEast1));
}

#[test]
fn resolve_region_override() {
    let region = resolve_region(Some(String::from("http://localhost:9000")));
    match region {
        Region::Custom { name, endpoint } => {
            assert_eq!(name, "us-east-1");
            assert_eq!(endpoint, "http://localhost:9000");
        },
        _ => panic!("expected a custom endpoint"),
    }
}

#[test]
fn new_facade_stores_bucket_name_unchanged() {
    let demo = S3Demo::new(String::from("My-Bucket"), None);
    assert_eq!(demo.bucket_name, "My-Bucket");
    assert!(matches!(demo.region, Region::UsEast1));
}

#[test]
fn new_facade_targets_override_endpoint() {
    let demo = S3Demo::new(
        String::from("test-bucket-1"),
        Some(String::from("http://127.0.0.1:9000")),
    );
    match demo.region {
        Region::Custom { name, endpoint } => {
            assert_eq!(name, "us-east-1");
            assert_eq!(endpoint, "http://127.0.0.1:9000");
        },
        _ => panic!("expected a custom endpoint"),
    }
}

#[test]
fn create_bucket_request_carries_name() {
    let demo = S3Demo::new(String::from("test-bucket-1"), None);
    let req = demo.create_bucket_request();
    assert_eq!(req.bucket, "test-bucket-1");
}

#[test]
fn delete_bucket_request_carries_name() {
    let demo = S3Demo::new(String::from("test-bucket-1"), None);
    let req = demo.delete_bucket_request();
    assert_eq!(req.bucket, "test-bucket-1");
}

#[test]
fn put_object_request_carries_key_and_body() {
    let demo = S3Demo::new(String::from("test-bucket-1"), None);
    let req = demo.put_object_request(&String::from("report.txt"), b"hello".to_vec());
    assert_eq!(req.bucket, "test-bucket-1");
    assert_eq!(req.key, "report.txt");
    assert_eq!(req.body, b"hello".to_vec());
}

#[test]
fn delete_object_request_carries_key() {
    let demo = S3Demo::new(String::from("test-bucket-1"), None);
    let req = demo.delete_object_request(String::from("report.txt"));
    assert_eq!(req.bucket, "test-bucket-1");
    assert_eq!(req.key, "report.txt");
}

#[test]
fn list_objects_request_starts_after_fixed_cursor() {
    let demo = S3Demo::new(String::from("test-bucket-1"), None);
    let req = demo.list_objects_request();
    assert_eq!(req.bucket, "test-bucket-1");
    assert_eq!(req.start_after, "foo");
}

#[test]
fn bucket_listed_finds_match() {
    let names = vec![
        Some(String::from("alpha")),
        None,
        Some(String::from("test-bucket-1")),
    ];
    assert!(bucket_listed(&names, &String::from("test-bucket-1")));
}

#[test]
fn bucket_listed_misses_absent_name() {
    let names = vec![Some(String::from("alpha")), Some(String::from("beta"))];
    assert!(!bucket_listed(&names, &String::from("test-bucket-1")));
}

#[test]
fn bucket_listed_empty_listing() {
    let names: Vec<Option<String>> = Vec::new();
    assert!(!bucket_listed(&names, &String::from("anything")));
}
