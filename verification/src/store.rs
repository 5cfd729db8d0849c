//! A verified model of the remote object store: the buckets one account
//! owns and the objects they hold.  Each facade operation corresponds to
//! one transition of this model; the transitions say exactly when an
//! operation succeeds and what the store looks like afterwards.

use vstd::prelude::*;
use crate::order::lex_lt;

verus! {

/// One stored object: its key and its opaque byte content.
pub struct ObjectRecord {
    pub key: String,
    pub body: Vec<u8>,
}

/// One bucket: its name and the objects it holds.
pub struct BucketRecord {
    pub name: String,
    pub objects: Vec<ObjectRecord>,
}

/// The store visible to one account: the buckets it owns.
pub struct StoreModel {
    pub buckets: Vec<BucketRecord>,
}

/// One entry of an object listing: a key and the object's size in bytes.
#[derive(Debug, Clone)]
pub struct ObjectSummary {
    pub key: String,
    pub size: usize,
}

/// The errors a model operation reports.  Every one of them is fatal to
/// the demonstration tool; the model only says when each arises.
#[derive(Clone, Copy, Debug, PartialEq, Eq, Structural)]
pub enum StoreError {
    /// Create was asked for a name that is already taken.
    BucketAlreadyExists,
    /// The addressed bucket does not exist.
    NoSuchBucket,
    /// Delete was asked for a bucket that still holds objects.
    BucketNotEmpty,
}

/// Whether the object sequence holds the key.
pub open spec fn has_key(objs: Seq<ObjectRecord>, key: Seq<char>) -> bool {
    exists|i: int| 0 <= i < objs.len() && (#[trigger] objs[i]).key@ == key
}

/// The body stored under a key; meaningful when the key is present and
/// keys are unique.
pub open spec fn body_of(objs: Seq<ObjectRecord>, key: Seq<char>) -> Seq<u8> {
    let i = choose|i: int| 0 <= i < objs.len() && (#[trigger] objs[i]).key@ == key;
    objs[i].body@
}

/// Keys are pairwise distinct within a bucket.
pub open spec fn objects_wf(objs: Seq<ObjectRecord>) -> bool {
    forall|i: int, j: int|
        0 <= i < j < objs.len() ==> (#[trigger] objs[i]).key@ != (#[trigger] objs[j]).key@
}

/// Whether the bucket sequence holds a bucket of the given name.
pub open spec fn has_bucket(buckets: Seq<BucketRecord>, name: Seq<char>) -> bool {
    exists|i: int| 0 <= i < buckets.len() && (#[trigger] buckets[i]).name@ == name
}

/// The objects of the bucket of the given name; meaningful when the
/// bucket is present and names are unique.
pub open spec fn objects_in(buckets: Seq<BucketRecord>, name: Seq<char>) -> Seq<ObjectRecord> {
    let i = choose|i: int| 0 <= i < buckets.len() && (#[trigger] buckets[i]).name@ == name;
    buckets[i].objects@
}

/// Bucket names are pairwise distinct: the provider's namespace holds
/// each name at most once.
pub open spec fn names_unique(buckets: Seq<BucketRecord>) -> bool {
    forall|i: int, j: int|
        0 <= i < j < buckets.len() ==> (#[trigger] buckets[i]).name@ != (#[trigger] buckets[j]).name@
}

/// Well-formedness of the whole store: unique bucket names, unique keys
/// within each bucket.
pub open spec fn store_wf(buckets: Seq<BucketRecord>) -> bool {
    names_unique(buckets) && (forall|i: int|
        0 <= i < buckets.len() ==> objects_wf((#[trigger] buckets[i]).objects@))
}

/// With unique names, the objects of a bucket are those at any index
/// that carries its name.
pub proof fn lemma_objects_in(buckets: Seq<BucketRecord>, name: Seq<char>, i: int)
    requires
        names_unique(buckets),
        0 <= i < buckets.len(),
        buckets[i].name@ == name,
    ensures
        has_bucket(buckets, name),
        objects_in(buckets, name) == buckets[i].objects@,
{
    assert(has_bucket(buckets, name));
    let c = choose|c: int| 0 <= c < buckets.len() && (#[trigger] buckets[c]).name@ == name;
    if c < i {
        assert(buckets[c].name@ != buckets[i].name@);
    } else if c > i {
        assert(buckets[i].name@ != buckets[c].name@);
    }
    assert(c == i);
}

/// With unique keys, the body stored under a key is the one at any index
/// that carries it.
pub proof fn lemma_body_of(objs: Seq<ObjectRecord>, key: Seq<char>, i: int)
    requires
        objects_wf(objs),
        0 <= i < objs.len(),
        objs[i].key@ == key,
    ensures
        has_key(objs, key),
        body_of(objs, key) == objs[i].body@,
{
    assert(has_key(objs, key));
    let c = choose|c: int| 0 <= c < objs.len() && (#[trigger] objs[c]).key@ == key;
    if c < i {
        assert(objs[c].key@ != objs[i].key@);
    } else if c > i {
        assert(objs[i].key@ != objs[c].key@);
    }
    assert(c == i);
}

/// A successful create: the name was free, and the store gained exactly
/// one empty bucket of that name.
pub open spec fn create_bucket_ok(
    pre: Seq<BucketRecord>,
    post: Seq<BucketRecord>,
    name: Seq<char>,
) -> bool {
    &&& !has_bucket(pre, name)
    &&& post.len() == pre.len() + 1
    &&& (forall|i: int| 0 <= i < pre.len() ==> post[i] == pre[i])
    &&& post[pre.len() as int].name@ == name
    &&& post[pre.len() as int].objects@.len() == 0
}

/// Deletion is allowed exactly of an existing, empty bucket.
pub open spec fn delete_bucket_allowed(buckets: Seq<BucketRecord>, name: Seq<char>) -> bool {
    has_bucket(buckets, name) && objects_in(buckets, name).len() == 0
}

/// A successful delete: the bucket of that name left the store and
/// nothing else moved.
pub open spec fn delete_bucket_ok(
    pre: Seq<BucketRecord>,
    post: Seq<BucketRecord>,
    name: Seq<char>,
) -> bool {
    exists|i: int|
        0 <= i < pre.len() && (#[trigger] pre[i]).name@ == name && post == pre.remove(i)
}

/// A successful put at the object level: the key now carries the body,
/// every other key is untouched.
pub open spec fn put_objects_ok(
    pre: Seq<ObjectRecord>,
    post: Seq<ObjectRecord>,
    key: Seq<char>,
    body: Seq<u8>,
) -> bool {
    &&& has_key(post, key)
    &&& body_of(post, key) == body
    &&& (forall|k: Seq<char>| k != key ==> #[trigger] has_key(post, k) == has_key(pre, k))
    &&& (forall|k: Seq<char>|
        k != key && has_key(pre, k) ==> #[trigger] body_of(post, k) == body_of(pre, k))
}

/// A successful removal at the object level: the key is gone, every
/// other key is untouched.
pub open spec fn remove_key_ok(
    pre: Seq<ObjectRecord>,
    post: Seq<ObjectRecord>,
    key: Seq<char>,
) -> bool {
    &&& !has_key(post, key)
    &&& (forall|k: Seq<char>| k != key ==> #[trigger] has_key(post, k) == has_key(pre, k))
    &&& (forall|k: Seq<char>|
        k != key && has_key(pre, k) ==> #[trigger] body_of(post, k) == body_of(pre, k))
}

/// A successful put at the store level: the addressed bucket existed and
/// its objects changed as `put_objects_ok` says; every other bucket is
/// untouched.
pub open spec fn put_object_ok(
    pre: Seq<BucketRecord>,
    post: Seq<BucketRecord>,
    bucket: Seq<char>,
    key: Seq<char>,
    body: Seq<u8>,
) -> bool {
    &&& post.len() == pre.len()
    &&& exists|i: int|
        0 <= i < pre.len() && (#[trigger] pre[i]).name@ == bucket && post[i].name@ == bucket
            && put_objects_ok(pre[i].objects@, post[i].objects@, key, body) && (forall|j: int|
            0 <= j < pre.len() && j != i ==> post[j] == pre[j])
}

/// A successful object deletion at the store level.
pub open spec fn delete_object_ok(
    pre: Seq<BucketRecord>,
    post: Seq<BucketRecord>,
    bucket: Seq<char>,
    key: Seq<char>,
) -> bool {
    &&& post.len() == pre.len()
    &&& exists|i: int|
        0 <= i < pre.len() && (#[trigger] pre[i]).name@ == bucket && post[i].name@ == bucket
            && remove_key_ok(pre[i].objects@, post[i].objects@, key) && (forall|j: int|
            0 <= j < pre.len() && j != i ==> post[j] == pre[j])
}

/// Overwriting the record that already carries a key leaves every other
/// key and the well-formedness untouched.
proof fn lemma_put_update(pre: Seq<ObjectRecord>, rec: ObjectRecord, j: int)
    requires
        objects_wf(pre),
        0 <= j < pre.len(),
        pre[j].key@ == rec.key@,
    ensures
        objects_wf(pre.update(j, rec)),
        put_objects_ok(pre, pre.update(j, rec), rec.key@, rec.body@),
{
    let post = pre.update(j, rec);
    assert forall|i1: int, i2: int| 0 <= i1 < i2 < post.len() implies (#[trigger] post[i1]).key@
        != (#[trigger] post[i2]).key@ by {
        assert(post[i1].key@ == pre[i1].key@);
        assert(post[i2].key@ == pre[i2].key@);
    }
    lemma_body_of(post, rec.key@, j);
    assert forall|k: Seq<char>| k != rec.key@ implies #[trigger] has_key(post, k) == has_key(
        pre,
        k,
    ) by {
        if has_key(pre, k) {
            let c = choose|c: int| 0 <= c < pre.len() && (#[trigger] pre[c]).key@ == k;
            assert(post[c].key@ == k);
            assert(has_key(post, k));
        }
        if has_key(post, k) {
            let c = choose|c: int| 0 <= c < post.len() && (#[trigger] post[c]).key@ == k;
            assert(pre[c].key@ == k);
            assert(has_key(pre, k));
        }
    }
    assert forall|k: Seq<char>| k != rec.key@ && has_key(pre, k) implies #[trigger] body_of(
        post,
        k,
    ) == body_of(pre, k) by {
        let c = choose|c: int| 0 <= c < pre.len() && (#[trigger] pre[c]).key@ == k;
        assert(c != j);
        lemma_body_of(pre, k, c);
        lemma_body_of(post, k, c);
    }
}

/// Appending a record under a fresh key leaves every other key and the
/// well-formedness untouched.
proof fn lemma_put_push(pre: Seq<ObjectRecord>, rec: ObjectRecord)
    requires
        objects_wf(pre),
        !has_key(pre, rec.key@),
    ensures
        objects_wf(pre.push(rec)),
        put_objects_ok(pre, pre.push(rec), rec.key@, rec.body@),
{
    let post = pre.push(rec);
    assert forall|i1: int, i2: int| 0 <= i1 < i2 < post.len() implies (#[trigger] post[i1]).key@
        != (#[trigger] post[i2]).key@ by {
        if i2 == pre.len() {
            assert(post[i1].key@ == pre[i1].key@);
            assert(has_key(pre, pre[i1].key@));
        } else {
            assert(post[i1].key@ == pre[i1].key@);
            assert(post[i2].key@ == pre[i2].key@);
        }
    }
    lemma_body_of(post, rec.key@, pre.len() as int);
    assert forall|k: Seq<char>| k != rec.key@ implies #[trigger] has_key(post, k) == has_key(
        pre,
        k,
    ) by {
        if has_key(pre, k) {
            let c = choose|c: int| 0 <= c < pre.len() && (#[trigger] pre[c]).key@ == k;
            assert(post[c].key@ == k);
            assert(has_key(post, k));
        }
        if has_key(post, k) {
            let c = choose|c: int| 0 <= c < post.len() && (#[trigger] post[c]).key@ == k;
            assert(c < pre.len());
            assert(pre[c].key@ == k);
            assert(has_key(pre, k));
        }
    }
    assert forall|k: Seq<char>| k != rec.key@ && has_key(pre, k) implies #[trigger] body_of(
        post,
        k,
    ) == body_of(pre, k) by {
        let c = choose|c: int| 0 <= c < pre.len() && (#[trigger] pre[c]).key@ == k;
        lemma_body_of(pre, k, c);
        lemma_body_of(post, k, c);
    }
}

/// Removing the record at an index removes its key and leaves every
/// other key and the well-formedness untouched.
proof fn lemma_remove_key(pre: Seq<ObjectRecord>, j: int)
    requires
        objects_wf(pre),
        0 <= j < pre.len(),
    ensures
        objects_wf(pre.remove(j)),
        remove_key_ok(pre, pre.remove(j), pre[j].key@),
{
    let post = pre.remove(j);
    let key = pre[j].key@;
    assert forall|i1: int, i2: int| 0 <= i1 < i2 < post.len() implies (#[trigger] post[i1]).key@
        != (#[trigger] post[i2]).key@ by {
        let p1 = if i1 < j { i1 } else { i1 + 1 };
        let p2 = if i2 < j { i2 } else { i2 + 1 };
        assert(post[i1] == pre[p1]);
        assert(post[i2] == pre[p2]);
    }
    assert forall|i: int| 0 <= i < post.len() implies (#[trigger] post[i]).key@ != key by {
        if i < j {
            assert(post[i] == pre[i]);
        } else {
            assert(post[i] == pre[i + 1]);
        }
    }
    assert(!has_key(post, key));
    assert forall|k: Seq<char>| k != key implies #[trigger] has_key(post, k) == has_key(
        pre,
        k,
    ) by {
        if has_key(pre, k) {
            let c = choose|c: int| 0 <= c < pre.len() && (#[trigger] pre[c]).key@ == k;
            assert(c != j);
            if c < j {
                assert(post[c] == pre[c]);
            } else {
                assert(post[c - 1] == pre[c]);
            }
            assert(has_key(post, k));
        }
        if has_key(post, k) {
            let c = choose|c: int| 0 <= c < post.len() && (#[trigger] post[c]).key@ == k;
            if c < j {
                assert(pre[c] == post[c]);
            } else {
                assert(pre[c + 1] == post[c]);
            }
            assert(has_key(pre, k));
        }
    }
    assert forall|k: Seq<char>| k != key && has_key(pre, k) implies #[trigger] body_of(post, k)
        == body_of(pre, k) by {
        let c = choose|c: int| 0 <= c < pre.len() && (#[trigger] pre[c]).key@ == k;
        assert(c != j);
        lemma_body_of(pre, k, c);
        if c < j {
            assert(post[c] == pre[c]);
            lemma_body_of(post, k, c);
        } else {
            assert(post[c - 1] == pre[c]);
            lemma_body_of(post, k, c - 1);
        }
    }
}

/// Whether an object record comes strictly after the cursor key.
pub open spec fn after_cursor(cursor: Seq<char>) -> spec_fn(ObjectRecord) -> bool {
    |o: ObjectRecord| lex_lt(cursor, o.key@)
}

/// The page a listing reports: the objects whose keys come strictly
/// after the cursor, in store order.
pub open spec fn page_of(objs: Seq<ObjectRecord>, cursor: Seq<char>) -> Seq<ObjectRecord> {
    objs.filter(after_cursor(cursor))
}

/// Whether a key is shown by a listing of these objects after the
/// cursor: it is present and comes strictly after the cursor.
pub open spec fn listed(objs: Seq<ObjectRecord>, cursor: Seq<char>, key: Seq<char>) -> bool {
    has_key(objs, key) && lex_lt(cursor, key)
}

/// What a listing page says of the objects it was drawn from: it is the
/// page after the cursor entry for entry, shows exactly the keys after
/// the cursor, each once, each with the byte length of its stored body.
pub open spec fn list_post(
    objs: Seq<ObjectRecord>,
    cursor: Seq<char>,
    page: Seq<ObjectSummary>,
) -> bool {
    &&& page.len() == page_of(objs, cursor).len()
    &&& (forall|t: int|
        0 <= t < page.len() ==> (#[trigger] page[t]).key@ == page_of(objs, cursor)[t].key@
            && page[t].size == page_of(objs, cursor)[t].body@.len())
    &&& (forall|k: Seq<char>|
        #[trigger] listed(objs, cursor, k) <==> exists|t: int|
            0 <= t < page.len() && (#[trigger] page[t]).key@ == k)
    &&& (forall|t: int|
        0 <= t < page.len() ==> (#[trigger] page[t]).size == body_of(objs, page[t].key@).len())
    &&& (forall|t1: int, t2: int|
        0 <= t1 < t2 < page.len() ==> (#[trigger] page[t1]).key@ != (#[trigger] page[t2]).key@)
}

/// One step of filtering a growing prefix: the element either joins the
/// filtered sequence or leaves it unchanged.
proof fn lemma_filter_step(objs: Seq<ObjectRecord>, pred: spec_fn(ObjectRecord) -> bool, i: int)
    requires
        0 <= i < objs.len(),
    ensures
        pred(objs[i]) ==> objs.take(i + 1).filter(pred) == objs.take(i).filter(pred).push(
            objs[i],
        ),
        !pred(objs[i]) ==> objs.take(i + 1).filter(pred) == objs.take(i).filter(pred),
{
    let prev = objs.take(i);
    let single = seq![objs[i]];
    assert(objs.take(i + 1) =~= prev + single);
    Seq::filter_distributes_over_add(prev, single, pred);
    reveal_with_fuel(Seq::<_>::filter, 2);
    assert(single.drop_last() =~= Seq::<ObjectRecord>::empty());
    if pred(objs[i]) {
        assert(single.filter(pred) =~= seq![objs[i]]);
        assert(prev.filter(pred) + single.filter(pred) =~= prev.filter(pred).push(objs[i]));
    } else {
        assert(single.filter(pred) =~= Seq::<ObjectRecord>::empty());
        assert(prev.filter(pred) + single.filter(pred) =~= prev.filter(pred));
    }
}

/// The loop bookkeeping of a listing: after the first `i` objects were
/// scanned, the page is the filtered prefix entry for entry, holds
/// exactly the scanned keys after the cursor, each once, each with the
/// byte length of its stored body.
spec fn listing_loop_inv(
    objs: Seq<ObjectRecord>,
    cursor: Seq<char>,
    i: int,
    page: Seq<ObjectSummary>,
) -> bool {
    let fpage = objs.take(i).filter(after_cursor(cursor));
    &&& page.len() == fpage.len()
    &&& (forall|t: int|
        #![trigger page[t]]
        0 <= t < page.len() ==> page[t].key@ == fpage[t].key@ && page[t].size
            == fpage[t].body@.len())
    &&& (forall|j: int|
        #![trigger objs[j]]
        0 <= j < i && lex_lt(cursor, objs[j].key@) ==> exists|t: int|
            0 <= t < page.len() && (#[trigger] page[t]).key@ == objs[j].key@)
    &&& (forall|t: int|
        #![trigger page[t]]
        0 <= t < page.len() ==> exists|j: int|
            0 <= j < i && (#[trigger] objs[j]).key@ == page[t].key@)
    &&& (forall|t: int|
        #![trigger page[t]]
        0 <= t < page.len() ==> page[t].size == body_of(objs, page[t].key@).len() && lex_lt(
            cursor,
            page[t].key@,
        ))
    &&& (forall|t1: int, t2: int|
        0 <= t1 < t2 < page.len() ==> (#[trigger] page[t1]).key@ != (#[trigger] page[t2]).key@)
}

/// A scanned object after the cursor joins the page and keeps the loop
/// bookkeeping.
#[verifier::rlimit(100)]
proof fn lemma_list_push_step(
    objs: Seq<ObjectRecord>,
    cursor: Seq<char>,
    i: int,
    old_page: Seq<ObjectSummary>,
    new_page: Seq<ObjectSummary>,
)
    requires
        objects_wf(objs),
        0 <= i < objs.len(),
        lex_lt(cursor, objs[i].key@),
        listing_loop_inv(objs, cursor, i, old_page),
        new_page.len() == old_page.len() + 1,
        forall|t: int| 0 <= t < old_page.len() ==> #[trigger] new_page[t] == old_page[t],
        new_page[new_page.len() - 1].key@ == objs[i].key@,
        new_page[new_page.len() - 1].size == objs[i].body@.len(),
    ensures
        listing_loop_inv(objs, cursor, i + 1, new_page),
{
    lemma_filter_step(objs, after_cursor(cursor), i);
    assert(after_cursor(cursor)(objs[i]));
    lemma_body_of(objs, objs[i].key@, i);
    let old_f = objs.take(i).filter(after_cursor(cursor));
    let new_f = objs.take(i + 1).filter(after_cursor(cursor));
    assert(new_f == old_f.push(objs[i]));
    assert forall|t: int| 0 <= t < new_page.len() implies (#[trigger] new_page[t]).key@
        == new_f[t].key@ && new_page[t].size == new_f[t].body@.len() by {
        if t < old_page.len() {
            assert(new_page[t] == old_page[t]);
            assert(new_f[t] == old_f[t]);
        } else {
            assert(new_f[t] == objs[i]);
        }
    }
    assert forall|j: int|
        0 <= j < i + 1 && lex_lt(cursor, (#[trigger] objs[j]).key@) implies exists|t: int|
        0 <= t < new_page.len() && (#[trigger] new_page[t]).key@ == objs[j].key@ by {
        if j < i {
            let t = choose|t: int|
                0 <= t < old_page.len() && (#[trigger] old_page[t]).key@ == objs[j].key@;
            assert(new_page[t].key@ == objs[j].key@);
        } else {
            assert(new_page[new_page.len() - 1].key@ == objs[j].key@);
        }
    }
    assert forall|t: int| 0 <= t < new_page.len() implies exists|j: int|
        0 <= j < i + 1 && (#[trigger] objs[j]).key@ == (#[trigger] new_page[t]).key@ by {
        if t < old_page.len() {
            let j = choose|j: int|
                0 <= j < i && (#[trigger] objs[j]).key@ == old_page[t].key@;
            assert(objs[j].key@ == new_page[t].key@);
        } else {
            assert(objs[i].key@ == new_page[t].key@);
        }
    }
    assert forall|t: int| 0 <= t < new_page.len() implies (#[trigger] new_page[t]).size
        == body_of(objs, new_page[t].key@).len() && lex_lt(cursor, new_page[t].key@) by {
        if t < old_page.len() {
            assert(new_page[t] == old_page[t]);
        } else {
            assert(new_page[t].key@ == objs[i].key@);
            assert(body_of(objs, objs[i].key@) == objs[i].body@);
        }
    }
    assert forall|t1: int, t2: int| 0 <= t1 < t2 < new_page.len() implies (
    #[trigger] new_page[t1]).key@ != (#[trigger] new_page[t2]).key@ by {
        assert(new_page[t1] == old_page[t1]);
        if t2 < old_page.len() {
            assert(new_page[t2] == old_page[t2]);
        } else {
            let j = choose|j: int|
                0 <= j < i && (#[trigger] objs[j]).key@ == old_page[t1].key@;
            assert(objs[j].key@ != objs[i].key@);
        }
    }
}

/// A scanned object at or before the cursor leaves the page alone and
/// keeps the loop bookkeeping.
proof fn lemma_list_skip_step(
    objs: Seq<ObjectRecord>,
    cursor: Seq<char>,
    i: int,
    page: Seq<ObjectSummary>,
)
    requires
        0 <= i < objs.len(),
        !lex_lt(cursor, objs[i].key@),
        listing_loop_inv(objs, cursor, i, page),
    ensures
        listing_loop_inv(objs, cursor, i + 1, page),
{
    lemma_filter_step(objs, after_cursor(cursor), i);
    assert(!after_cursor(cursor)(objs[i]));
    assert(objs.take(i + 1).filter(after_cursor(cursor)) == objs.take(i).filter(
        after_cursor(cursor),
    ));
    assert forall|j: int|
        0 <= j < i + 1 && lex_lt(cursor, (#[trigger] objs[j]).key@) implies exists|t: int|
        0 <= t < page.len() && (#[trigger] page[t]).key@ == objs[j].key@ by {
        assert(j < i);
    }
    assert forall|t: int| 0 <= t < page.len() implies exists|j: int|
        0 <= j < i + 1 && (#[trigger] objs[j]).key@ == (#[trigger] page[t]).key@ by {
        let j = choose|j: int| 0 <= j < i && (#[trigger] objs[j]).key@ == page[t].key@;
        assert(0 <= j < i + 1 && objs[j].key@ == page[t].key@);
    }
}

/// A page that the loop bookkeeping carried over the whole object
/// sequence reports the listing exactly.
proof fn lemma_list_complete(objs: Seq<ObjectRecord>, cursor: Seq<char>, page: Seq<ObjectSummary>)
    requires
        objects_wf(objs),
        listing_loop_inv(objs, cursor, objs.len() as int, page),
    ensures
        list_post(objs, cursor, page),
{
    assert(objs.take(objs.len() as int) =~= objs);
    assert forall|k: Seq<char>|
        #![trigger lex_lt(cursor, k)]
        listed(objs, cursor, k) <==> (exists|t: int|
            0 <= t < page.len() && (#[trigger] page[t]).key@ == k) by {
        if listed(objs, cursor, k) {
            let j = choose|j: int| 0 <= j < objs.len() && (#[trigger] objs[j]).key@ == k;
            assert(lex_lt(cursor, objs[j].key@));
            assert(exists|t: int| 0 <= t < page.len() && (#[trigger] page[t]).key@ == k);
        }
        if exists|t: int| 0 <= t < page.len() && (#[trigger] page[t]).key@ == k {
            let t = choose|t: int| 0 <= t < page.len() && (#[trigger] page[t]).key@ == k;
            let j = choose|j: int|
                0 <= j < objs.len() && (#[trigger] objs[j]).key@ == page[t].key@;
            assert(has_key(objs, k));
            assert(lex_lt(cursor, page[t].key@));
        }
    }
}

/// Two bucket sequences of the same names hold the same buckets.
proof fn lemma_same_names_same_buckets(pre: Seq<BucketRecord>, post: Seq<BucketRecord>)
    requires
        pre.len() == post.len(),
        forall|i: int| 0 <= i < pre.len() ==> (#[trigger] post[i]).name@ == pre[i].name@,
    ensures
        forall|m: Seq<char>| #[trigger] has_bucket(post, m) == has_bucket(pre, m),
{
    assert forall|m: Seq<char>| #[trigger] has_bucket(post, m) == has_bucket(pre, m) by {
        if has_bucket(pre, m) {
            let c = choose|c: int| 0 <= c < pre.len() && (#[trigger] pre[c]).name@ == m;
            assert(post[c].name@ == m);
            assert(has_bucket(post, m));
        }
        if has_bucket(post, m) {
            let c = choose|c: int| 0 <= c < post.len() && (#[trigger] post[c]).name@ == m;
            assert(pre[c].name@ == m);
            assert(has_bucket(pre, m));
        }
    }
}

/// The index of the key in a bucket's objects, found by a linear scan.
fn object_index(objs: &Vec<ObjectRecord>, key: &String) -> (r: Option<usize>)
    ensures
        r matches Some(i) ==> i < objs@.len() && objs@[i as int].key@ == key@,
        r is None ==> !has_key(objs@, key@),
{
    let mut i: usize = 0;
    while i < objs.len()
        invariant
            0 <= i <= objs@.len(),
            forall|j: int| 0 <= j < i ==> (#[trigger] objs@[j]).key@ != key@,
        decreases objs@.len() - i,
    {
        if objs[i].key.eq(key) {
            return Some(i);
        }
        i += 1;
    }
    None
}

impl StoreModel {
    /// Well-formedness of the model.
    pub open spec fn wf(self) -> bool {
        store_wf(self.buckets@)
    }

    /// An empty store: the account owns no bucket.
    pub fn empty() -> (s: StoreModel)
        ensures
            s.wf(),
            s.buckets@.len() == 0,
    {
        StoreModel { buckets: Vec::new() }
    }

    /// The index of the bucket of the given name, found by a linear scan.
    fn bucket_index(&self, name: &String) -> (r: Option<usize>)
        ensures
            r matches Some(i) ==> i < self.buckets@.len() && self.buckets@[i as int].name@
                == name@,
            r is None ==> !has_bucket(self.buckets@, name@),
    {
        let mut i: usize = 0;
        while i < self.buckets.len()
            invariant
                0 <= i <= self.buckets@.len(),
                forall|j: int| 0 <= j < i ==> (#[trigger] self.buckets@[j]).name@ != name@,
            decreases self.buckets@.len() - i,
        {
            if self.buckets[i].name.eq(name) {
                return Some(i);
            }
            i += 1;
        }
        None
    }

    /// The existence check of the listing flow: a linear scan of the
    /// account's buckets for the name.
    pub fn find_bucket(&self, name: &String) -> (found: bool)
        ensures
            found == has_bucket(self.buckets@, name@),
    {
        self.bucket_index(name).is_some()
    }

    /// Creates a bucket with default settings.  Succeeds exactly when the
    /// name is not already taken; on failure the store is unchanged.
    pub fn create_bucket(&mut self, name: &String) -> (r: Result<(), StoreError>)
        requires
            old(self).wf(),
        ensures
            final(self).wf(),
            r is Ok <==> !has_bucket(old(self).buckets@, name@),
            r matches Err(e) ==> *final(self) == *old(self) && e == StoreError::BucketAlreadyExists,
            r is Ok ==> create_bucket_ok(old(self).buckets@, final(self).buckets@, name@),
    {
        if self.bucket_index(name).is_some() {
            return Err(StoreError::BucketAlreadyExists);
        }
        let record = BucketRecord { name: name.clone(), objects: Vec::new() };
        self.buckets.push(record);
        Ok(())
    }

    /// Deletes the bucket of the given name.  Succeeds exactly when the
    /// bucket exists and is empty; the provider rejects deletion of a
    /// non-empty bucket.  On failure the store is unchanged.
    pub fn delete_bucket(&mut self, name: &String) -> (r: Result<(), StoreError>)
        requires
            old(self).wf(),
        ensures
            final(self).wf(),
            r is Ok <==> delete_bucket_allowed(old(self).buckets@, name@),
            r matches Err(e) ==> *final(self) == *old(self),
            r matches Err(e) ==> (e == StoreError::NoSuchBucket <==> !has_bucket(
                old(self).buckets@,
                name@,
            )),
            r matches Err(e) ==> (e == StoreError::BucketNotEmpty <==> has_bucket(
                old(self).buckets@,
                name@,
            ) && objects_in(old(self).buckets@, name@).len() > 0),
            r is Ok ==> delete_bucket_ok(old(self).buckets@, final(self).buckets@, name@),
            r is Ok ==> !has_bucket(final(self).buckets@, name@),
            forall|m: Seq<char>|
                m != name@ ==> #[trigger] has_bucket(final(self).buckets@, m) == has_bucket(
                    old(self).buckets@,
                    m,
                ),
    {
        let idx = match self.bucket_index(name) {
            None => {
                return Err(StoreError::NoSuchBucket);
            },
            Some(i) => i,
        };
        proof {
            lemma_objects_in(self.buckets@, name@, idx as int);
        }
        if self.buckets[idx].objects.len() > 0 {
            return Err(StoreError::BucketNotEmpty);
        }
        self.buckets.remove(idx);
        proof {
            let pre = old(self).buckets@;
            let post = self.buckets@;
            let i = idx as int;
            assert forall|j: int| 0 <= j < post.len() implies (#[trigger] post[j]).name@
                != name@ by {
                if j < i {
                    assert(post[j] == pre[j]);
                } else {
                    assert(post[j] == pre[j + 1]);
                }
            }
            assert(!has_bucket(post, name@));
            assert forall|m: Seq<char>| m != name@ implies #[trigger] has_bucket(post, m)
                == has_bucket(pre, m) by {
                if has_bucket(pre, m) {
                    let j = choose|j: int|
                        0 <= j < pre.len() && (#[trigger] pre[j]).name@ == m;
                    if j < i {
                        assert(post[j] == pre[j]);
                        assert(has_bucket(post, m));
                    } else {
                        assert(post[j - 1] == pre[j]);
                        assert(has_bucket(post, m));
                    }
                }
                if has_bucket(post, m) {
                    let j = choose|j: int|
                        0 <= j < post.len() && (#[trigger] post[j]).name@ == m;
                    if j < i {
                        assert(post[j] == pre[j]);
                        assert(has_bucket(pre, m));
                    } else {
                        assert(post[j] == pre[j + 1]);
                        assert(has_bucket(pre, m));
                    }
                }
            }
            assert forall|j1: int, j2: int| 0 <= j1 < j2 < post.len() implies (
            #[trigger] post[j1]).name@ != (#[trigger] post[j2]).name@ by {
                let p1 = if j1 < i { j1 } else { j1 + 1 };
                let p2 = if j2 < i { j2 } else { j2 + 1 };
                assert(post[j1] == pre[p1]);
                assert(post[j2] == pre[p2]);
            }
            assert forall|j: int| 0 <= j < post.len() implies objects_wf(
                (#[trigger] post[j]).objects@,
            ) by {
                if j < i {
                    assert(post[j] == pre[j]);
                } else {
                    assert(post[j] == pre[j + 1]);
                }
            }
        }
        Ok(())
    }

    /// Uploads a body under a key in the named bucket, overwriting any
    /// previous body of that key.  Succeeds exactly when the bucket
    /// exists; on failure the store is unchanged.
    pub fn put_object(&mut self, bucket: &String, key: &String, body: Vec<u8>) -> (r: Result<
        (),
        StoreError,
    >)
        requires
            old(self).wf(),
        ensures
            final(self).wf(),
            r is Ok <==> has_bucket(old(self).buckets@, bucket@),
            r matches Err(e) ==> *final(self) == *old(self) && e == StoreError::NoSuchBucket,
            r is Ok ==> put_object_ok(
                old(self).buckets@,
                final(self).buckets@,
                bucket@,
                key@,
                body@,
            ),
            forall|m: Seq<char>|
                #[trigger] has_bucket(final(self).buckets@, m) == has_bucket(
                    old(self).buckets@,
                    m,
                ),
    {
        let idx = match self.bucket_index(bucket) {
            None => {
                return Err(StoreError::NoSuchBucket);
            },
            Some(i) => i,
        };
        let mut b = self.buckets.remove(idx);
        let ghost pre_objs = b.objects@;
        let rec = ObjectRecord { key: key.clone(), body };
        match object_index(&b.objects, key) {
            Some(j) => {
                proof {
                    lemma_put_update(pre_objs, rec, j as int);
                }
                b.objects[j] = rec;
            },
            None => {
                proof {
                    lemma_put_push(pre_objs, rec);
                }
                b.objects.push(rec);
            },
        }
        let ghost nb = b;
        self.buckets.insert(idx, b);
        proof {
            let pre = old(self).buckets@;
            let post = self.buckets@;
            let i = idx as int;
            assert(post =~= pre.update(i, nb));
            assert(put_objects_ok(pre[i].objects@, post[i].objects@, key@, body@));
            assert(put_object_ok(pre, post, bucket@, key@, body@));
            assert forall|j: int| 0 <= j < post.len() implies (#[trigger] post[j]).name@
                == pre[j].name@ by {}
            lemma_same_names_same_buckets(pre, post);
            assert(final(self).wf());
        }
        Ok(())
    }

    /// Deletes the key from the named bucket; deleting an absent key is
    /// a success that changes nothing.  Succeeds exactly when the bucket
    /// exists; on failure the store is unchanged.
    pub fn delete_object(&mut self, bucket: &String, key: &String) -> (r: Result<
        (),
        StoreError,
    >)
        requires
            old(self).wf(),
        ensures
            final(self).wf(),
            r is Ok <==> has_bucket(old(self).buckets@, bucket@),
            r matches Err(e) ==> *final(self) == *old(self) && e == StoreError::NoSuchBucket,
            r is Ok ==> delete_object_ok(
                old(self).buckets@,
                final(self).buckets@,
                bucket@,
                key@,
            ),
            forall|m: Seq<char>|
                #[trigger] has_bucket(final(self).buckets@, m) == has_bucket(
                    old(self).buckets@,
                    m,
                ),
    {
        let idx = match self.bucket_index(bucket) {
            None => {
                return Err(StoreError::NoSuchBucket);
            },
            Some(i) => i,
        };
        let mut b = self.buckets.remove(idx);
        let ghost pre_objs = b.objects@;
        match object_index(&b.objects, key) {
            Some(j) => {
                proof {
                    lemma_remove_key(pre_objs, j as int);
                }
                b.objects.remove(j);
            },
            None => {
                assert(remove_key_ok(pre_objs, b.objects@, key@));
            },
        }
        let ghost nb = b;
        self.buckets.insert(idx, b);
        proof {
            let pre = old(self).buckets@;
            let post = self.buckets@;
            let i = idx as int;
            assert(post =~= pre.update(i, nb));
            assert(remove_key_ok(pre[i].objects@, post[i].objects@, key@));
            assert(delete_object_ok(pre, post, bucket@, key@));
            assert forall|j: int| 0 <= j < post.len() implies (#[trigger] post[j]).name@
                == pre[j].name@ by {}
            lemma_same_names_same_buckets(pre, post);
            assert(final(self).wf());
        }
        Ok(())
    }

    /// Lists one page of the named bucket's objects: every key strictly
    /// after the cursor, each with its size.  No continuation follows;
    /// at most this one page is ever observed.  Succeeds exactly when
    /// the bucket exists.
    pub fn list_objects(&self, bucket: &String, start_after: &String) -> (r: Result<
        Vec<ObjectSummary>,
        StoreError,
    >)
        requires
            self.wf(),
        ensures
            r is Ok <==> has_bucket(self.buckets@, bucket@),
            r matches Err(e) ==> e == StoreError::NoSuchBucket,
            r matches Ok(page) ==> list_post(
                objects_in(self.buckets@, bucket@),
                start_after@,
                page@,
            ),
    {
        let idx = match self.bucket_index(bucket) {
            None => {
                return Err(StoreError::NoSuchBucket);
            },
            Some(i) => i,
        };
        proof {
            lemma_objects_in(self.buckets@, bucket@, idx as int);
        }
        let objs = &self.buckets[idx].objects;
        let ghost cursor = start_after@;
        let mut page: Vec<ObjectSummary> = Vec::new();
        let mut i: usize = 0;
        while i < objs.len()
            invariant
                0 <= i <= objs@.len(),
                objects_wf(objs@),
                cursor == start_after@,
                listing_loop_inv(objs@, cursor, i as int, page@),
            decreases objs@.len() - i,
        {
            let o = &objs[i];
            if crate::order::lex_lt_exec(start_after.as_str(), o.key.as_str()) {
                let ghost old_page = page@;
                let summary = ObjectSummary { key: o.key.clone(), size: o.body.len() };
                let ghost gsummary = summary;
                page.push(summary);
                proof {
                    assert(page@ == old_page.push(gsummary));
                    assert(page@[page@.len() - 1].key@ == objs@[i as int].key@);
                    assert(page@[page@.len() - 1].size == objs@[i as int].body@.len());
                    assert(forall|t: int|
                        0 <= t < old_page.len() ==> #[trigger] page@[t] == old_page[t]);
                    lemma_list_push_step(objs@, cursor, i as int, old_page, page@);
                }
            } else {
                proof {
                    lemma_list_skip_step(objs@, cursor, i as int, page@);
                }
            }
            i += 1;
        }
        proof {
            lemma_list_complete(objs@, cursor, page@);
            assert(list_post(objects_in(self.buckets@, bucket@), start_after@, page@));
        }
        Ok(page)
    }
}

} // verus!
