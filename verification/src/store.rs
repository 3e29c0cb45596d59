//! The two storage abstractions behind the pipeline: a relational-table
//! model mapping (route, content hash) to artifact metadata with expiry,
//! and a put/delete/URL blob-store model. Records are immutable once
//! inserted; the pipeline is the sole writer and the cleanup sweep the sole
//! deleter.

use vstd::prelude::*;
use vstd::string::StrSliceExecFns;
use crate::config::Config;
use crate::text::{str_eq, strip_trailing, strip_trailing_of};

verus! {

/// A persisted artifact row.
pub struct MediaRecord {
    pub id: u128,
    pub endpoint_path: String,
    pub prompt: String,
    pub prompt_hash: String,
    pub s3_key: String,
    pub s3_url: String,
    pub media_type: String,
    pub file_size_bytes: i64,
    pub payer_address: Option<String>,
    pub payment_tx: Option<String>,
    pub created_at: i64,
    pub expires_at: i64,
}

/// The mathematical value of a record.
pub struct MediaRecordView {
    pub id: u128,
    pub endpoint_path: Seq<char>,
    pub prompt: Seq<char>,
    pub prompt_hash: Seq<char>,
    pub s3_key: Seq<char>,
    pub s3_url: Seq<char>,
    pub media_type: Seq<char>,
    pub file_size_bytes: i64,
    pub payer_address: Option<Seq<char>>,
    pub payment_tx: Option<Seq<char>>,
    pub created_at: i64,
    pub expires_at: i64,
}

/// The view of an optional string.
pub open spec fn opt_view(s: Option<String>) -> Option<Seq<char>> {
    match s {
        Some(x) => Some(x@),
        None => Option::<Seq<char>>::None,
    }
}

impl View for MediaRecord {
    type V = MediaRecordView;

    open spec fn view(&self) -> MediaRecordView {
        MediaRecordView {
            id: self.id,
            endpoint_path: self.endpoint_path@,
            prompt: self.prompt@,
            prompt_hash: self.prompt_hash@,
            s3_key: self.s3_key@,
            s3_url: self.s3_url@,
            media_type: self.media_type@,
            file_size_bytes: self.file_size_bytes,
            payer_address: opt_view(self.payer_address),
            payment_tx: opt_view(self.payment_tx),
            created_at: self.created_at,
            expires_at: self.expires_at,
        }
    }
}

/// Copy an optional string.
fn clone_opt(s: &Option<String>) -> (r: Option<String>)
    ensures
        opt_view(r) == opt_view(*s),
{
    match s {
        Some(x) => Some(x.clone()),
        None => None,
    }
}

/// Copy a record; the copy has the same view.
fn copy_record(r: &MediaRecord) -> (c: MediaRecord)
    ensures
        c@ == r@,
{
    MediaRecord {
        id: r.id,
        endpoint_path: r.endpoint_path.clone(),
        prompt: r.prompt.clone(),
        prompt_hash: r.prompt_hash.clone(),
        s3_key: r.s3_key.clone(),
        s3_url: r.s3_url.clone(),
        media_type: r.media_type.clone(),
        file_size_bytes: r.file_size_bytes,
        payer_address: clone_opt(&r.payer_address),
        payment_tx: clone_opt(&r.payment_tx),
        created_at: r.created_at,
        expires_at: r.expires_at,
    }
}

/// When a record answers a lookup: same content hash and route, and not yet
/// expired at `now`.
pub open spec fn record_matches(
    r: MediaRecordView,
    prompt_hash: Seq<char>,
    endpoint_path: Seq<char>,
    now: i64,
) -> bool {
    &&& r.prompt_hash == prompt_hash
    &&& r.endpoint_path == endpoint_path
    &&& r.expires_at > now
}

/// The records that are expired at `now`, in table order.
pub open spec fn expired_of(rs: Seq<MediaRecordView>, now: i64) -> Seq<MediaRecordView>
    decreases rs.len(),
{
    if rs.len() == 0 {
        Seq::<MediaRecordView>::empty()
    } else if rs.last().expires_at <= now {
        expired_of(rs.drop_last(), now).push(rs.last())
    } else {
        expired_of(rs.drop_last(), now)
    }
}

/// The records that remain live at `now`, in table order.
pub open spec fn live_of(rs: Seq<MediaRecordView>, now: i64) -> Seq<MediaRecordView>
    decreases rs.len(),
{
    if rs.len() == 0 {
        Seq::<MediaRecordView>::empty()
    } else if rs.last().expires_at > now {
        live_of(rs.drop_last(), now).push(rs.last())
    } else {
        live_of(rs.drop_last(), now)
    }
}

/// The cache store: rows keyed by (route, content hash) with expiry.
pub struct CacheStore {
    records: Vec<MediaRecord>,
    next_id: u128,
}

impl CacheStore {
    /// The rows, in insertion order.
    pub closed spec fn view(&self) -> Seq<MediaRecordView> {
        self.records@.map_values(|r: MediaRecord| r@)
    }

    /// Every row's id is below the id counter.
    pub closed spec fn wf(&self) -> bool {
        forall|i: int| 0 <= i < self@.len() ==> (#[trigger] self@[i]).id < self.next_id
    }

    /// Another row can still receive a fresh id.
    pub closed spec fn can_insert(&self) -> bool {
        self.next_id < u128::MAX
    }

    /// An empty store.
    pub fn new() -> (s: CacheStore)
        ensures
            s@ =~= Seq::<MediaRecordView>::empty(),
            s.wf(),
            s.can_insert(),
    {
        let s = CacheStore { records: Vec::new(), next_id: 0 };
        proof {
            assert(s@ =~= Seq::<MediaRecordView>::empty());
        }
        s
    }

    /// Return a most recent record for this content hash and route that has
    /// not expired, or none when every matching record has expired.
    #[verifier::loop_isolation(false)]
    pub fn find_by_prompt_hash(
        &self,
        prompt_hash: &str,
        endpoint_path: &str,
        now: i64,
    ) -> (r: Option<&MediaRecord>)
        ensures
            r is Some <==> exists|i: int|
                0 <= i < self@.len() && record_matches(
                    #[trigger] self@[i],
                    prompt_hash@,
                    endpoint_path@,
                    now,
                ),
            r matches Some(rec) ==> {
                &&& exists|i: int| 0 <= i < self@.len() && #[trigger] self@[i] == rec@
                &&& record_matches(rec@, prompt_hash@, endpoint_path@, now)
                &&& forall|i: int|
                    0 <= i < self@.len() && record_matches(
                        #[trigger] self@[i],
                        prompt_hash@,
                        endpoint_path@,
                        now,
                    ) ==> self@[i].created_at <= rec@.created_at
            },
    {
        let n = self.records.len();
        let mut best: Option<&MediaRecord> = None;
        let mut i: usize = 0;
        while i < n
            invariant
                0 <= i <= n,
                best is None ==> forall|j: int|
                    0 <= j < i ==> !record_matches(
                        #[trigger] self@[j],
                        prompt_hash@,
                        endpoint_path@,
                        now,
                    ),
                best matches Some(rec) ==> {
                    &&& exists|j: int| 0 <= j < i && #[trigger] self@[j] == rec@
                    &&& record_matches(rec@, prompt_hash@, endpoint_path@, now)
                    &&& forall|j: int|
                        0 <= j < i && record_matches(
                            #[trigger] self@[j],
                            prompt_hash@,
                            endpoint_path@,
                            now,
                        ) ==> self@[j].created_at <= rec@.created_at
                },
            decreases n - i,
        {
            let rec = &self.records[i];
            proof {
                assert(self@[i as int] == rec@);
            }
            if str_eq(rec.prompt_hash.as_str(), prompt_hash) && str_eq(
                rec.endpoint_path.as_str(),
                endpoint_path,
            ) && rec.expires_at > now {
                match best {
                    Some(b) => {
                        if rec.created_at > b.created_at {
                            best = Some(rec);
                        }
                    },
                    None => {
                        best = Some(rec);
                    },
                }
            }
            i += 1;
        }
        best
    }

    /// Whether another row can still receive a fresh id.
    pub fn has_capacity(&self) -> (r: bool)
        ensures
            r == self.can_insert(),
    {
        self.next_id < u128::MAX
    }

    /// How many rows the store holds.
    pub fn record_count(&self) -> (r: usize)
        ensures
            r as nat == self@.len(),
    {
        self.records.len()
    }

    /// Insert a new immutable row with a fresh id, and return that id.
    #[allow(clippy::too_many_arguments)]
    pub fn insert_media(
        &mut self,
        endpoint_path: &str,
        prompt: &str,
        prompt_hash: &str,
        s3_key: &str,
        s3_url: &str,
        media_type: &str,
        file_size_bytes: i64,
        payer_address: Option<String>,
        payment_tx: Option<String>,
        created_at: i64,
        expires_at: i64,
    ) -> (id: u128)
        requires
            old(self).wf(),
            old(self).can_insert(),
        ensures
            final(self).wf(),
            final(self)@.len() == old(self)@.len() + 1,
            final(self)@.subrange(0, old(self)@.len() as int) == old(self)@,
            ({
                let rec = final(self)@.last();
                &&& rec.id == id
                &&& rec.endpoint_path == endpoint_path@
                &&& rec.prompt == prompt@
                &&& rec.prompt_hash == prompt_hash@
                &&& rec.s3_key == s3_key@
                &&& rec.s3_url == s3_url@
                &&& rec.media_type == media_type@
                &&& rec.file_size_bytes == file_size_bytes
                &&& rec.payer_address == opt_view(payer_address)
                &&& rec.payment_tx == opt_view(payment_tx)
                &&& rec.created_at == created_at
                &&& rec.expires_at == expires_at
            }),
            forall|i: int| 0 <= i < old(self)@.len() ==> (#[trigger] old(self)@[i]).id != id,
    {
        let id = self.next_id;
        self.next_id = self.next_id + 1;
        let rec = MediaRecord {
            id,
            endpoint_path: String::from_str(endpoint_path),
            prompt: String::from_str(prompt),
            prompt_hash: String::from_str(prompt_hash),
            s3_key: String::from_str(s3_key),
            s3_url: String::from_str(s3_url),
            media_type: String::from_str(media_type),
            file_size_bytes,
            payer_address,
            payment_tx,
            created_at,
            expires_at,
        };
        self.records.push(rec);
        proof {
            assert(final(self)@ =~= old(self)@.push(final(self).records@.last()@));
            assert(final(self)@.subrange(0, old(self)@.len() as int) =~= old(self)@);
        }
        id
    }

    /// All rows expired at `now`, as copies, in table order.
    #[verifier::loop_isolation(false)]
    pub fn find_expired(&self, now: i64) -> (r: Vec<MediaRecord>)
        ensures
            r@.map_values(|rec: MediaRecord| rec@) == expired_of(self@, now),
    {
        let n = self.records.len();
        let mut r: Vec<MediaRecord> = Vec::new();
        let mut i: usize = 0;
        proof {
            assert(self@.subrange(0, 0) =~= Seq::<MediaRecordView>::empty());
            assert(r@.map_values(|rec: MediaRecord| rec@) =~= expired_of(
                self@.subrange(0, 0),
                now,
            ));
        }
        while i < n
            invariant
                0 <= i <= n,
                n == self.records@.len(),
                r@.map_values(|rec: MediaRecord| rec@) == expired_of(
                    self@.subrange(0, i as int),
                    now,
                ),
            decreases n - i,
        {
            let rec = &self.records[i];
            proof {
                assert(self@[i as int] == rec@);
                assert(self@.subrange(0, i + 1).drop_last() =~= self@.subrange(0, i as int));
                assert(self@.subrange(0, i + 1).last() == self@[i as int]);
            }
            if rec.expires_at <= now {
                let c = copy_record(rec);
                r.push(c);
                proof {
                    assert(r@.map_values(|rec: MediaRecord| rec@) =~= expired_of(
                        self@.subrange(0, i + 1),
                        now,
                    ));
                }
            } else {
                proof {
                    assert(r@.map_values(|rec: MediaRecord| rec@) =~= expired_of(
                        self@.subrange(0, i + 1),
                        now,
                    ));
                }
            }
            i += 1;
        }
        proof {
            assert(self@.subrange(0, n as int) =~= self@);
        }
        r
    }

    /// Delete the rows with this id; deleting an absent id changes nothing.
    #[verifier::loop_isolation(false)]
    pub fn delete_by_id(&mut self, id: u128)
        requires
            old(self).wf(),
        ensures
            final(self).wf(),
            final(self)@ == remove_id_of(old(self)@, id),
    {
        let n = self.records.len();
        let mut kept: Vec<MediaRecord> = Vec::new();
        let mut i: usize = 0;
        proof {
            assert(self@.subrange(0, 0) =~= Seq::<MediaRecordView>::empty());
            assert(kept@.map_values(|rec: MediaRecord| rec@) =~= remove_id_of(
                self@.subrange(0, 0),
                id,
            ));
        }
        while i < n
            invariant
                0 <= i <= n,
                n == self.records@.len(),
                self == old(self),
                kept@.map_values(|rec: MediaRecord| rec@) == remove_id_of(
                    self@.subrange(0, i as int),
                    id,
                ),
            decreases n - i,
        {
            let rec = &self.records[i];
            proof {
                assert(self@[i as int] == rec@);
                assert(self@.subrange(0, i + 1).drop_last() =~= self@.subrange(0, i as int));
                assert(self@.subrange(0, i + 1).last() == self@[i as int]);
            }
            if rec.id != id {
                let c = copy_record(rec);
                kept.push(c);
                proof {
                    assert(kept@.map_values(|rec: MediaRecord| rec@) =~= remove_id_of(
                        self@.subrange(0, i + 1),
                        id,
                    ));
                }
            } else {
                proof {
                    assert(kept@.map_values(|rec: MediaRecord| rec@) =~= remove_id_of(
                        self@.subrange(0, i + 1),
                        id,
                    ));
                }
            }
            i += 1;
        }
        proof {
            assert(self@.subrange(0, n as int) =~= self@);
            lemma_remove_id_membership(self@, id);
        }
        self.records = kept;
    }

    /// Delete every row expired at `now`, keeping the live rows in order.
    #[verifier::loop_isolation(false)]
    pub fn remove_expired(&mut self, now: i64)
        requires
            old(self).wf(),
        ensures
            final(self).wf(),
            final(self)@ == live_of(old(self)@, now),
    {
        let n = self.records.len();
        let mut kept: Vec<MediaRecord> = Vec::new();
        let mut i: usize = 0;
        proof {
            assert(self@.subrange(0, 0) =~= Seq::<MediaRecordView>::empty());
            assert(kept@.map_values(|rec: MediaRecord| rec@) =~= live_of(
                self@.subrange(0, 0),
                now,
            ));
        }
        while i < n
            invariant
                0 <= i <= n,
                n == self.records@.len(),
                self == old(self),
                kept@.map_values(|rec: MediaRecord| rec@) == live_of(
                    self@.subrange(0, i as int),
                    now,
                ),
            decreases n - i,
        {
            let rec = &self.records[i];
            proof {
                assert(self@[i as int] == rec@);
                assert(self@.subrange(0, i + 1).drop_last() =~= self@.subrange(0, i as int));
                assert(self@.subrange(0, i + 1).last() == self@[i as int]);
            }
            if rec.expires_at > now {
                let c = copy_record(rec);
                kept.push(c);
                proof {
                    assert(kept@.map_values(|rec: MediaRecord| rec@) =~= live_of(
                        self@.subrange(0, i + 1),
                        now,
                    ));
                }
            } else {
                proof {
                    assert(kept@.map_values(|rec: MediaRecord| rec@) =~= live_of(
                        self@.subrange(0, i + 1),
                        now,
                    ));
                }
            }
            i += 1;
        }
        proof {
            assert(self@.subrange(0, n as int) =~= self@);
            lemma_live_membership(self@, now);
        }
        self.records = kept;
    }
}

/// The rows without those bearing the given id, in table order.
pub open spec fn remove_id_of(rs: Seq<MediaRecordView>, id: u128) -> Seq<MediaRecordView>
    decreases rs.len(),
{
    if rs.len() == 0 {
        Seq::<MediaRecordView>::empty()
    } else if rs.last().id == id {
        remove_id_of(rs.drop_last(), id)
    } else {
        remove_id_of(rs.drop_last(), id).push(rs.last())
    }
}

/// Every row kept by an id deletion stood in the table before it.
proof fn lemma_remove_id_membership(rs: Seq<MediaRecordView>, id: u128)
    ensures
        forall|i: int|
            0 <= i < remove_id_of(rs, id).len() ==> exists|j: int|
                0 <= j < rs.len() && #[trigger] remove_id_of(rs, id)[i] == rs[j],
    decreases rs.len(),
{
    if rs.len() > 0 {
        lemma_remove_id_membership(rs.drop_last(), id);
        let out = remove_id_of(rs, id);
        let prev = remove_id_of(rs.drop_last(), id);
        assert forall|i: int| 0 <= i < out.len() implies exists|j: int|
            0 <= j < rs.len() && #[trigger] out[i] == rs[j] by {
            if rs.last().id != id && i == out.len() - 1 {
                assert(out[i] == rs[rs.len() - 1]);
            } else {
                assert(out[i] == prev[i]);
                let j = choose|j: int|
                    0 <= j < rs.drop_last().len() && #[trigger] prev[i] == rs.drop_last()[j];
                assert(rs.drop_last()[j] == rs[j]);
            }
        }
    }
}

/// Every live row stood in the table before the sweep.
proof fn lemma_live_membership(rs: Seq<MediaRecordView>, now: i64)
    ensures
        forall|i: int|
            0 <= i < live_of(rs, now).len() ==> exists|j: int|
                0 <= j < rs.len() && #[trigger] live_of(rs, now)[i] == rs[j],
    decreases rs.len(),
{
    if rs.len() > 0 {
        lemma_live_membership(rs.drop_last(), now);
        let out = live_of(rs, now);
        let prev = live_of(rs.drop_last(), now);
        assert forall|i: int| 0 <= i < out.len() implies exists|j: int|
            0 <= j < rs.len() && #[trigger] out[i] == rs[j] by {
            if rs.last().expires_at > now && i == out.len() - 1 {
                assert(out[i] == rs[rs.len() - 1]);
            } else {
                assert(out[i] == prev[i]);
                let j = choose|j: int|
                    0 <= j < rs.drop_last().len() && #[trigger] prev[i] == rs.drop_last()[j];
                assert(rs.drop_last()[j] == rs[j]);
            }
        }
    }
}

/// One stored object.
pub struct StoredObject {
    pub content_type: String,
    pub bytes: Vec<u8>,
    pub world_readable: bool,
}

/// The mathematical value of a stored object.
pub struct StoredObjectView {
    pub content_type: Seq<char>,
    pub bytes: Seq<u8>,
    pub world_readable: bool,
}

impl View for StoredObject {
    type V = StoredObjectView;

    open spec fn view(&self) -> StoredObjectView {
        StoredObjectView {
            content_type: self.content_type@,
            bytes: self.bytes@,
            world_readable: self.world_readable,
        }
    }
}

/// The object stored under a key, scanning the latest entry first.
pub open spec fn find_key(es: Seq<(String, StoredObject)>, k: Seq<char>) -> Option<
    StoredObjectView,
>
    decreases es.len(),
{
    if es.len() == 0 {
        Option::<StoredObjectView>::None
    } else if es.last().0@ == k {
        Some(es.last().1@)
    } else {
        find_key(es.drop_last(), k)
    }
}

/// The object store: a put/delete/URL abstraction over a blob bucket.
pub struct ObjectStore {
    entries: Vec<(String, StoredObject)>,
}

impl ObjectStore {
    /// The object under a key, if any.
    pub closed spec fn object_at(&self, k: Seq<char>) -> Option<StoredObjectView> {
        find_key(self.entries@, k)
    }

    /// An empty store.
    pub fn new() -> (s: ObjectStore)
        ensures
            forall|k: Seq<char>| s.object_at(k) is None,
    {
        ObjectStore { entries: Vec::new() }
    }

    /// Store bytes under a key, world-readable, replacing any object
    /// already there; every other key is untouched.
    pub fn upload_file(&mut self, key: &str, bytes: Vec<u8>, content_type: &str)
        ensures
            final(self).object_at(key@) matches Some(o) && o.bytes == bytes@ && o.content_type
                == content_type@ && o.world_readable,
            forall|k: Seq<char>|
                k != key@ ==> final(self).object_at(k) == old(self).object_at(k),
    {
        let obj = StoredObject {
            content_type: String::from_str(content_type),
            bytes,
            world_readable: true,
        };
        self.entries.push((String::from_str(key), obj));
        proof {
            assert(final(self).entries@.drop_last() =~= old(self).entries@);
        }
    }

    /// The object stored under a key, if any.
    #[verifier::loop_isolation(false)]
    pub fn get(&self, key: &str) -> (r: Option<&StoredObject>)
        ensures
            match r {
                Some(o) => self.object_at(key@) == Some(o@),
                None => self.object_at(key@) is None,
            },
    {
        let n = self.entries.len();
        let mut i = n;
        proof {
            assert(self.entries@.take(n as int) =~= self.entries@);
        }
        while i > 0
            invariant
                0 <= i <= n,
                n == self.entries@.len(),
                find_key(self.entries@, key@) == find_key(self.entries@.take(i as int), key@),
            decreases i,
        {
            i -= 1;
            let e = &self.entries[i];
            proof {
                assert(self.entries@.take(i + 1).drop_last() =~= self.entries@.take(i as int));
                assert(self.entries@.take(i + 1).last() == self.entries@[i as int]);
            }
            if str_eq(e.0.as_str(), key) {
                return Some(&e.1);
            }
        }
        proof {
            assert(self.entries@.take(0) =~= Seq::<(String, StoredObject)>::empty());
        }
        None
    }

    /// Remove the object under a key; every other key is untouched, and an
    /// absent key is not an error.
    #[verifier::loop_isolation(false)]
    pub fn delete_file(&mut self, key: &str)
        ensures
            final(self).object_at(key@) is None,
            forall|k: Seq<char>|
                k != key@ ==> final(self).object_at(k) == old(self).object_at(k),
    {
        let n = self.entries.len();
        let mut kept: Vec<(String, StoredObject)> = Vec::new();
        let mut i: usize = 0;
        proof {
            assert(self.entries@.subrange(0, 0) =~= Seq::<(String, StoredObject)>::empty());
            assert(entries_view_eq(kept@, drop_key_of(self.entries@.subrange(0, 0), key@)));
        }
        while i < n
            invariant
                0 <= i <= n,
                n == self.entries@.len(),
                self == old(self),
                entries_view_eq(kept@, drop_key_of(self.entries@.subrange(0, i as int), key@)),
            decreases n - i,
        {
            let e = &self.entries[i];
            let ghost dk = drop_key_of(self.entries@.subrange(0, i as int), key@);
            proof {
                assert(self.entries@[i as int] == *e);
                assert(self.entries@.subrange(0, i + 1).drop_last() =~= self.entries@.subrange(
                    0,
                    i as int,
                ));
                assert(self.entries@.subrange(0, i + 1).last() == self.entries@[i as int]);
            }
            if !str_eq(e.0.as_str(), key) {
                let copy = (
                    e.0.clone(),
                    StoredObject {
                        content_type: e.1.content_type.clone(),
                        bytes: copy_bytes(&e.1.bytes),
                        world_readable: e.1.world_readable,
                    },
                );
                kept.push(copy);
                proof {
                    let d1 = drop_key_of(self.entries@.subrange(0, i + 1), key@);
                    assert(d1 == dk.push(self.entries@[i as int]));
                    assert(entries_view_eq(kept@, d1));
                }
            } else {
                proof {
                    assert(drop_key_of(self.entries@.subrange(0, i + 1), key@) == dk);
                }
            }
            i += 1;
        }
        proof {
            assert(self.entries@.subrange(0, n as int) =~= self.entries@);
            lemma_drop_key(self.entries@, key@);
            assert forall|k: Seq<char>| #[trigger] find_key(kept@, k) == find_key(
                drop_key_of(self.entries@, key@),
                k,
            ) by {
                lemma_find_key_congruence(kept@, drop_key_of(self.entries@, key@), k);
            }
        }
        self.entries = kept;
    }
}

/// The entries without those stored under the given key, in order.
pub open spec fn drop_key_of(es: Seq<(String, StoredObject)>, key: Seq<char>) -> Seq<
    (String, StoredObject),
>
    decreases es.len(),
{
    if es.len() == 0 {
        Seq::<(String, StoredObject)>::empty()
    } else if es.last().0@ == key {
        drop_key_of(es.drop_last(), key)
    } else {
        drop_key_of(es.drop_last(), key).push(es.last())
    }
}

/// Two entry lists whose keys and objects agree in value.
pub open spec fn entries_view_eq(
    a: Seq<(String, StoredObject)>,
    b: Seq<(String, StoredObject)>,
) -> bool {
    &&& a.len() == b.len()
    &&& forall|i: int|
        0 <= i < a.len() ==> (#[trigger] a[i]).0@ == (#[trigger] b[i]).0@ && a[i].1@ == b[i].1@
}

/// Value-equal entry lists store the same objects.
proof fn lemma_find_key_congruence(
    a: Seq<(String, StoredObject)>,
    b: Seq<(String, StoredObject)>,
    k: Seq<char>,
)
    requires
        entries_view_eq(a, b),
    ensures
        find_key(a, k) == find_key(b, k),
    decreases a.len(),
{
    if a.len() > 0 {
        assert(a[a.len() - 1].0@ == b[b.len() - 1].0@);
        assert(entries_view_eq(a.drop_last(), b.drop_last())) by {
            assert(forall|i: int|
                0 <= i < a.drop_last().len() ==> #[trigger] a.drop_last()[i] == a[i]
                    && #[trigger] b.drop_last()[i] == b[i]);
        }
        lemma_find_key_congruence(a.drop_last(), b.drop_last(), k);
    }
}

/// Dropping a key removes exactly that key's object and nothing else.
proof fn lemma_drop_key(es: Seq<(String, StoredObject)>, key: Seq<char>)
    ensures
        find_key(drop_key_of(es, key), key) is None,
        forall|k: Seq<char>|
            k != key ==> #[trigger] find_key(drop_key_of(es, key), k) == find_key(es, k),
    decreases es.len(),
{
    if es.len() > 0 {
        lemma_drop_key(es.drop_last(), key);
        if es.last().0@ != key {
            let out = drop_key_of(es.drop_last(), key).push(es.last());
            assert(out.drop_last() =~= drop_key_of(es.drop_last(), key));
            assert(out.last() == es.last());
            assert forall|k: Seq<char>| k != key implies #[trigger] find_key(
                drop_key_of(es, key),
                k,
            ) == find_key(es, k) by {
                if es.last().0@ == k {
                    assert(find_key(out, k) == Some(es.last().1@));
                } else {
                    assert(find_key(out, k) == find_key(out.drop_last(), k));
                    assert(find_key(es, k) == find_key(es.drop_last(), k));
                }
            }
        } else {
            assert forall|k: Seq<char>| k != key implies #[trigger] find_key(
                drop_key_of(es, key),
                k,
            ) == find_key(es, k) by {
                assert(find_key(es, k) == find_key(es.drop_last(), k));
            }
        }
    }
}

/// Copy a byte vector.
fn copy_bytes(b: &Vec<u8>) -> (c: Vec<u8>)
    ensures
        c@ == b@,
{
    let mut c: Vec<u8> = Vec::new();
    let mut i: usize = 0;
    while i < b.len()
        invariant
            0 <= i <= b@.len(),
            c@ == b@.subrange(0, i as int),
        decreases b@.len() - i,
    {
        c.push(b[i]);
        proof {
            assert(b@.subrange(0, i + 1) =~= b@.subrange(0, i as int).push(b@[i as int]));
        }
        i += 1;
    }
    proof {
        assert(b@.subrange(0, b@.len() as int) =~= b@);
    }
    c
}

/// Build the public URL of a stored object: the CDN base without trailing
/// slashes, a slash, then the key.
pub fn cdn_url(config: &Config, key: &str) -> (r: String)
    ensures
        r@ == strip_trailing_of(config.s3_cdn_url@, '/') + "/"@ + key@,
{
    let base = strip_trailing(config.s3_cdn_url.as_str(), '/');
    let mut r = String::from_str(base);
    r.append("/");
    r.append(key);
    r
}

} // verus!
