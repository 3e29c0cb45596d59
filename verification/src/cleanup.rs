//! The cleanup worker: a periodic sweep that removes expired artifacts,
//! object first, record second. A record is deleted only when its object's
//! deletion succeeded, so no cache row is ever left pointing at a missing
//! object; an orphaned object is the accepted lesser evil. Per-record
//! failures never abort the rest of a batch.

use vstd::prelude::*;
use crate::store::{expired_of, live_of, CacheStore, MediaRecordView, ObjectStore};

verus! {

/// Some record expired at `now` stores its object under this key.
pub open spec fn expired_key_in(rs: Seq<MediaRecordView>, now: i64, k: Seq<char>) -> bool {
    exists|i: int|
        0 <= i < rs.len() && (#[trigger] rs[i]).expires_at <= now && rs[i].s3_key == k
}

/// The keys of the expired sweep list are exactly the keys of the expired
/// records.
proof fn lemma_expired_keys(rs: Seq<MediaRecordView>, now: i64)
    ensures
        forall|k: Seq<char>|
            #[trigger] expired_key_in(rs, now, k) <==> exists|i: int|
                0 <= i < expired_of(rs, now).len() && (#[trigger] expired_of(rs, now)[i]).s3_key
                    == k,
    decreases rs.len(),
{
    if rs.len() > 0 {
        lemma_expired_keys(rs.drop_last(), now);
        let dl = rs.drop_last();
        let out = expired_of(rs, now);
        assert forall|k: Seq<char>| #[trigger] expired_key_in(rs, now, k) implies exists|i: int|
            0 <= i < out.len() && (#[trigger] out[i]).s3_key == k by {
            let w = choose|w: int|
                0 <= w < rs.len() && (#[trigger] rs[w]).expires_at <= now && rs[w].s3_key == k;
            if w < rs.len() - 1 {
                assert(dl[w] == rs[w]);
                assert(expired_key_in(dl, now, k));
                let j = choose|j: int|
                    0 <= j < expired_of(dl, now).len() && (#[trigger] expired_of(dl, now)[j]).s3_key
                        == k;
                if rs.last().expires_at <= now {
                    assert(out[j] == expired_of(dl, now)[j]);
                } else {
                    assert(out[j] == expired_of(dl, now)[j]);
                }
            } else {
                assert(rs.last().expires_at <= now);
                assert(out.last().s3_key == k);
            }
        }
        assert forall|k: Seq<char>|
            (exists|i: int| 0 <= i < out.len() && (#[trigger] out[i]).s3_key == k) implies
            #[trigger] expired_key_in(rs, now, k) by {
            let j = choose|j: int| 0 <= j < out.len() && (#[trigger] out[j]).s3_key == k;
            if rs.last().expires_at <= now && j == out.len() - 1 {
                assert(rs[rs.len() - 1].expires_at <= now && rs[rs.len() - 1].s3_key == k);
            } else {
                assert(out[j] == expired_of(dl, now)[j]);
                assert(expired_key_in(dl, now, k));
                let w = choose|w: int|
                    0 <= w < dl.len() && (#[trigger] dl[w]).expires_at <= now && dl[w].s3_key
                        == k;
                assert(rs[w] == dl[w]);
            }
        }
    }
}

/// Every record that survives a sweep is still live.
pub proof fn lemma_live_records_survive_only(rs: Seq<MediaRecordView>, now: i64)
    ensures
        forall|j: int|
            0 <= j < live_of(rs, now).len() ==> (#[trigger] live_of(rs, now)[j]).expires_at
                > now,
    decreases rs.len(),
{
    if rs.len() > 0 {
        lemma_live_records_survive_only(rs.drop_last(), now);
    }
}

/// Every live record survives a sweep.
pub proof fn lemma_live_record_kept(rs: Seq<MediaRecordView>, now: i64, i: int)
    requires
        0 <= i < rs.len(),
        rs[i].expires_at > now,
    ensures
        live_of(rs, now).contains(rs[i]),
    decreases rs.len(),
{
    if i == rs.len() - 1 {
        assert(live_of(rs, now).last() == rs[i]);
    } else {
        lemma_live_record_kept(rs.drop_last(), now, i);
        assert(rs.drop_last()[i] == rs[i]);
        let prev = live_of(rs.drop_last(), now);
        let j = choose|j: int| 0 <= j < prev.len() && prev[j] == rs[i];
        if rs.last().expires_at > now {
            assert(live_of(rs, now)[j] == prev[j]);
        } else {
            assert(live_of(rs, now)[j] == prev[j]);
        }
    }
}

/// One sweep of the stores: every record expired at `now` is removed
/// together with the object under its key; live records, and objects under
/// keys no expired record uses, are untouched.
#[verifier::loop_isolation(false)]
pub fn cleanup_tick(cache: &mut CacheStore, store: &mut ObjectStore, now: i64)
    requires
        old(cache).wf(),
    ensures
        final(cache).wf(),
        final(cache)@ == live_of(old(cache)@, now),
        forall|k: Seq<char>|
            #[trigger] expired_key_in(old(cache)@, now, k) ==> final(store).object_at(k) is None,
        forall|k: Seq<char>|
            !(#[trigger] expired_key_in(old(cache)@, now, k)) ==> final(store).object_at(k)
                == old(store).object_at(k),
{
    let expired = cache.find_expired(now);
    let ghost ex = expired@.map_values(|rec: crate::store::MediaRecord| rec@);
    let n = expired.len();
    let mut i: usize = 0;
    proof {
        lemma_expired_keys(old(cache)@, now);
    }
    while i < n
        invariant
            0 <= i <= n,
            n == ex.len(),
            ex == expired@.map_values(|rec: crate::store::MediaRecord| rec@),
            cache == old(cache),
            forall|k: Seq<char>|
                (exists|j: int| 0 <= j < i && (#[trigger] ex[j]).s3_key == k) ==> store.object_at(
                    k,
                ) is None,
            forall|k: Seq<char>|
                !(exists|j: int| 0 <= j < i && (#[trigger] ex[j]).s3_key == k)
                    ==> store.object_at(k) == old(store).object_at(k),
        decreases n - i,
    {
        let key = &expired[i].s3_key;
        proof {
            assert(ex[i as int] == expired@[i as int]@);
        }
        store.delete_file(key.as_str());
        i += 1;
    }
    cache.remove_expired(now);
}

/// What woke the worker.
pub enum WorkerEvent {
    /// The periodic timer fired.
    Tick,
    /// The process asked the worker to stop.
    Shutdown,
}

/// What the worker does next.
pub enum WorkerAction {
    /// Run one full sweep; a batch once started runs to completion.
    RunSweep,
    /// Exit promptly, between ticks.
    Exit,
}

/// The worker's decision on waking: a timer tick runs one sweep, a
/// shutdown notice ends the loop.
pub fn worker_step(event: &WorkerEvent) -> (r: WorkerAction)
    ensures
        (event is Tick) <==> (r is RunSweep),
        (event is Shutdown) <==> (r is Exit),
{
    match event {
        WorkerEvent::Tick => WorkerAction::RunSweep,
        WorkerEvent::Shutdown => WorkerAction::Exit,
    }
}

/// Whether the sweep may delete a record, given how deleting its object
/// went: only a deleted object's record may go, so no record is left
/// pointing at nothing.
pub fn record_delete_allowed(object_deletion: &Result<(), String>) -> (r: bool)
    ensures
        r <==> object_deletion is Ok,
{
    object_deletion.is_ok()
}

} // verus!
