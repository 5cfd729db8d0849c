//! The library's laws: how consecutive operations relate, proved over
//! the store model's transitions.

use vstd::prelude::*;
use crate::order::lex_lt;
use crate::store::{
    BucketRecord,
    ObjectSummary,
    create_bucket_ok,
    delete_bucket_allowed,
    delete_object_ok,
    has_bucket,
    has_key,
    lemma_objects_in,
    list_post,
    listed,
    names_unique,
    objects_in,
    put_object_ok,
    put_objects_ok,
    remove_key_ok,
    body_of,
};

verus! {

/// A bucket that a successful create just added is present in the
/// account's bucket listing, so the existence scan finds it.
pub proof fn lemma_created_bucket_is_found(
    pre: Seq<BucketRecord>,
    post: Seq<BucketRecord>,
    name: Seq<char>,
)
    requires
        create_bucket_ok(pre, post, name),
    ensures
        has_bucket(post, name),
{
    assert(post[pre.len() as int].name@ == name);
}

/// A bucket that a successful create just added is empty, so deleting it
/// at once is allowed.
pub proof fn lemma_created_bucket_deletable(
    pre: Seq<BucketRecord>,
    post: Seq<BucketRecord>,
    name: Seq<char>,
)
    requires
        create_bucket_ok(pre, post, name),
        names_unique(post),
    ensures
        delete_bucket_allowed(post, name),
{
    let i = pre.len() as int;
    lemma_objects_in(post, name, i);
}

/// After a successful put, every page listed after a cursor that the key
/// strictly follows shows an entry with exactly that key and the byte
/// length of the uploaded body as its size.
pub proof fn lemma_put_object_listed(
    pre: Seq<BucketRecord>,
    post: Seq<BucketRecord>,
    bucket: Seq<char>,
    key: Seq<char>,
    body: Seq<u8>,
    cursor: Seq<char>,
    page: Seq<ObjectSummary>,
)
    requires
        names_unique(post),
        put_object_ok(pre, post, bucket, key, body),
        lex_lt(cursor, key),
        list_post(objects_in(post, bucket), cursor, page),
    ensures
        exists|t: int|
            0 <= t < page.len() && (#[trigger] page[t]).key@ == key && page[t].size
                == body.len(),
{
    let i = choose|i: int|
        0 <= i < pre.len() && (#[trigger] pre[i]).name@ == bucket && post[i].name@ == bucket
            && put_objects_ok(pre[i].objects@, post[i].objects@, key, body) && (forall|j: int|
            0 <= j < pre.len() && j != i ==> post[j] == pre[j]);
    lemma_objects_in(post, bucket, i);
    let objs = objects_in(post, bucket);
    assert(has_key(objs, key));
    assert(listed(objs, cursor, key));
    let t = choose|t: int| 0 <= t < page.len() && (#[trigger] page[t]).key@ == key;
    assert(page[t].size == body_of(objs, page[t].key@).len());
    assert(page[t].size == body.len());
}

/// After a successful object deletion, no page listed from that bucket
/// shows the deleted key any more.
pub proof fn lemma_deleted_object_not_listed(
    pre: Seq<BucketRecord>,
    post: Seq<BucketRecord>,
    bucket: Seq<char>,
    key: Seq<char>,
    cursor: Seq<char>,
    page: Seq<ObjectSummary>,
)
    requires
        names_unique(post),
        delete_object_ok(pre, post, bucket, key),
        list_post(objects_in(post, bucket), cursor, page),
    ensures
        forall|t: int| 0 <= t < page.len() ==> (#[trigger] page[t]).key@ != key,
{
    let i = choose|i: int|
        0 <= i < pre.len() && (#[trigger] pre[i]).name@ == bucket && post[i].name@ == bucket
            && remove_key_ok(pre[i].objects@, post[i].objects@, key) && (forall|j: int|
            0 <= j < pre.len() && j != i ==> post[j] == pre[j]);
    lemma_objects_in(post, bucket, i);
    let objs = objects_in(post, bucket);
    assert(!has_key(objs, key));
    assert(!listed(objs, cursor, key));
    assert forall|t: int| 0 <= t < page.len() implies (#[trigger] page[t]).key@ != key by {
        if page[t].key@ == key {
            assert(exists|t2: int| 0 <= t2 < page.len() && (#[trigger] page[t2]).key@ == key);
            assert(listed(objs, cursor, key));
        }
    }
}

} // verus!
