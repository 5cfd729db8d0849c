//! The client facade: region resolution, the request payloads of each
//! operation, and the bucket-existence scan over a bucket listing.

use vstd::prelude::*;

verus! {

/// Target of the storage client: either the default standard region or a
/// custom endpoint registered under a fixed region label.
pub enum Region {
    UsEast1,
    Custom { name: String, endpoint: String },
}

/// The fixed region label used for a custom endpoint.
pub open spec fn custom_region_label() -> Seq<char> {
    "us-east-1"@
}

/// Resolves the region from an optional endpoint override: an override
/// yields a custom endpoint under the fixed label, no override yields the
/// default standard region.
pub fn resolve_region(endpoint_override: Option<String>) -> (r: Region)
    ensures
        endpoint_override matches Some(e) ==> (r matches Region::Custom { name, endpoint }
            && name@ == custom_region_label() && endpoint@ == e@),
        endpoint_override is None ==> r matches Region::UsEast1,
{
    match endpoint_override {
        Some(endpoint) => Region::Custom { name: String::from_str("us-east-1"), endpoint },
        None => Region::UsEast1,
    }
}

/// The facade: the resolved region the client targets and the bucket name
/// every operation addresses.  The bucket name is stored unchanged and is
/// immutable once the facade is constructed.
pub struct S3Demo {
    pub region: Region,
    pub bucket_name: String,
}

/// Payload of a create-bucket request: default settings, only the name.
pub struct CreateBucketRequest {
    pub bucket: String,
}

/// Payload of a delete-bucket request.
pub struct DeleteBucketRequest {
    pub bucket: String,
}

/// Payload of a put-object request: the whole object body is held in
/// memory.
pub struct PutObjectRequest {
    pub bucket: String,
    pub key: String,
    pub body: Vec<u8>,
}

/// Payload of a delete-object request.
pub struct DeleteObjectRequest {
    pub bucket: String,
    pub key: String,
}

/// Payload of a single-page object listing request, starting after a fixed
/// cursor key.
pub struct ListObjectsV2Request {
    pub bucket: String,
    pub start_after: String,
}

/// The fixed cursor the listing starts after.
pub open spec fn listing_cursor() -> Seq<char> {
    "foo"@
}

impl S3Demo {
    /// Constructs the facade: resolves the region from the optional
    /// endpoint override and stores the bucket name unchanged, with no
    /// normalization and no validation.
    pub fn new(bucket_name: String, endpoint_override: Option<String>) -> (demo: S3Demo)
        ensures
            demo.bucket_name@ == bucket_name@,
            endpoint_override matches Some(e) ==> (demo.region matches Region::Custom {
                name,
                endpoint,
            } && name@ == custom_region_label() && endpoint@ == e@),
            endpoint_override is None ==> demo.region matches Region::UsEast1,
    {
        S3Demo { region: resolve_region(endpoint_override), bucket_name }
    }

    /// Builds the create-bucket request for the facade's bucket.
    pub fn create_bucket_request(&self) -> (r: CreateBucketRequest)
        ensures
            r.bucket@ == self.bucket_name@,
    {
        CreateBucketRequest { bucket: self.bucket_name.clone() }
    }

    /// Builds the delete-bucket request for the facade's bucket.
    pub fn delete_bucket_request(&self) -> (r: DeleteBucketRequest)
        ensures
            r.bucket@ == self.bucket_name@,
    {
        DeleteBucketRequest { bucket: self.bucket_name.clone() }
    }

    /// Builds the put-object request: the destination key and the bytes
    /// read from the local file, uploaded under the facade's bucket.
    pub fn put_object_request(&self, dest_filename: &String, contents: Vec<u8>) -> (r:
        PutObjectRequest)
        ensures
            r.bucket@ == self.bucket_name@,
            r.key@ == dest_filename@,
            r.body@ == contents@,
    {
        PutObjectRequest {
            bucket: self.bucket_name.clone(),
            key: dest_filename.clone(),
            body: contents,
        }
    }

    /// Builds the delete-object request for a key in the facade's bucket.
    pub fn delete_object_request(&self, key: String) -> (r: DeleteObjectRequest)
        ensures
            r.bucket@ == self.bucket_name@,
            r.key@ == key@,
    {
        DeleteObjectRequest { bucket: self.bucket_name.clone(), key }
    }

    /// Builds the single-page listing request for the facade's bucket,
    /// starting after the fixed cursor key.
    pub fn list_objects_request(&self) -> (r: ListObjectsV2Request)
        ensures
            r.bucket@ == self.bucket_name@,
            r.start_after@ == listing_cursor(),
    {
        ListObjectsV2Request {
            bucket: self.bucket_name.clone(),
            start_after: String::from_str("foo"),
        }
    }
}

/// Whether a bucket listing, given as the optional name of each listed
/// bucket, contains the target name.
pub open spec fn listing_contains(names: Seq<Option<String>>, target: Seq<char>) -> bool {
    exists|i: int| 0 <= i < names.len() && ((#[trigger] names[i]) matches Some(n) && n@ == target)
}

/// The bucket-existence check: a linear scan of the listed bucket names
/// for one equal to the target.  There is no targeted lookup; existence is
/// decided by this scan alone.
pub fn bucket_listed(names: &Vec<Option<String>>, target: &String) -> (found: bool)
    ensures
        found == listing_contains(names@, target@),
{
    let mut i: usize = 0;
    while i < names.len()
        invariant
            0 <= i <= names@.len(),
            forall|j: int| 0 <= j < i ==> match #[trigger] names@[j] {
                Some(n) => n@ != target@,
                None => true,
            },
        decreases names@.len() - i,
    {
        match &names[i] {
            Some(n) => {
                if n.eq(target) {
                    assert(listing_contains(names@, target@));
                    return true;
                }
            },
            None => {},
        }
        i += 1;
    }
    assert(forall|j: int| 0 <= j < names@.len() ==> !((#[trigger] names@[j]) matches Some(n) && n@
        == target@));
    false
}

} // verus!
