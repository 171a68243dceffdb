//! The per-partition coordinator: the write state machine with optimistic
//! versioning, leader/follower role transitions with log-replay recovery,
//! the background flush step, and the read paths.

use vstd::prelude::*;

use crate::doc::id_coding;
use crate::doc::iid_of;
use crate::doc::key_fits;
use crate::doc::Document;
use crate::doc::DocView;
use crate::doc::EngineError;
use crate::doc::WriteDocumentRequest;
use crate::doc::WriteType;
use crate::doc::CODE_INTERNAL;
use crate::doc::CODE_SUCCESS;
use crate::doc::bytes_dup;
use crate::json::merge;
use crate::json::merged;
use crate::json::JsonValue;
use crate::latch::Latch;
use crate::oplog::apply_event;
use crate::oplog::apply_log;
use crate::oplog::lemma_apply_log_push;
use crate::oplog::lemma_apply_log_at;
use crate::oplog::lemma_reapply_suffix;
use crate::oplog::last_write;
use crate::oplog::EventView;
use crate::oplog::LogEvent;
use crate::oplog::LogStore;
use crate::table::DocTable;

verus! {

/// Number of stripes in the latch table.
pub const LATCH_STRIPES: usize = 50000;

/// Engine configuration.
pub struct Config {
    /// Seconds between background flush ticks.
    pub flush_sleep_sec: u64,
}

impl Default for Config {
    /// Flush every three seconds.
    fn default() -> (r: Config)
        ensures
            r.flush_sleep_sec == 3,
    {
        Config { flush_sleep_sec: 3 }
    }
}

/// The one-shot commit synchronizer handed to the log: the commit callback
/// counts it down once, releasing the blocked writer.
pub struct WriteRaftCallback {
    pub remaining: u64,
}

impl WriteRaftCallback {
    /// A synchronizer awaiting `n` commits.
    pub fn new(n: u64) -> (r: WriteRaftCallback)
        ensures
            r.remaining == n,
    {
        WriteRaftCallback { remaining: n }
    }

    /// The commit callback: one count down.
    pub fn call(&mut self)
        ensures
            final(self).remaining == if old(self).remaining > 0 {
                (old(self).remaining - 1) as u64
            } else {
                0u64
            },
    {
        if self.remaining > 0 {
            self.remaining = self.remaining - 1;
        }
    }

    /// Whether every awaited commit has fired.
    pub fn done(&self) -> (r: bool)
        ensures
            r == (self.remaining == 0),
    {
        self.remaining == 0
    }
}

/// A search request: a top-level field name to look up.
pub struct SearchDocumentRequest {
    pub query_key: Vec<u8>,
}

/// Diagnostic part of a search response.
pub struct SearchInfo {
    pub error: u32,
    pub success: u32,
    pub message: Vec<u8>,
}

/// A search response: a code, the hit count, and the internal ids of the
/// matching documents.
pub struct SearchDocumentResponse {
    pub code: u32,
    pub total: u64,
    pub hits: Vec<Vec<u8>>,
    pub info: Option<SearchInfo>,
}

/// A put event carries a document with an assigned version.
pub open spec fn event_ok(e: EventView) -> bool {
    e is Put ==> e->Put_1.version >= 1
}

/// Every put in the log carries a versioned document.
pub open spec fn log_valid(s: Seq<EventView>) -> bool {
    forall|i: int| 0 <= i < s.len() ==> event_ok(#[trigger] s[i])
}

/// Whether a document's body is an object holding top-level key `q`.
pub open spec fn doc_matches(d: DocView, q: Seq<u8>) -> bool {
    d.source is Obj && crate::json::obj_has(d.source->Obj_0, q)
}

/// The internal ids, in table order, of the entries whose document
/// matches the query.
pub open spec fn search_hits(entries: Seq<(Seq<u8>, DocView)>, q: Seq<u8>) -> Seq<Seq<u8>>
    decreases entries.len(),
{
    if entries.len() == 0 {
        Seq::empty()
    } else if doc_matches(entries[0].1, q) {
        seq![entries[0].0] + search_hits(entries.subrange(1, entries.len() as int), q)
    } else {
        search_hits(entries.subrange(1, entries.len() as int), q)
    }
}

/// The byte strings a vector of keys holds.
pub open spec fn keys_view(s: Seq<Vec<u8>>) -> Seq<Seq<u8>> {
    Seq::new(s.len(), |i: int| s[i]@)
}

/// Search returns no stray hit: every hit is the key of an entry whose
/// document matches the query.
pub proof fn lemma_search_hits_sound(entries: Seq<(Seq<u8>, DocView)>, q: Seq<u8>, h: int)
    requires
        0 <= h < search_hits(entries, q).len(),
    ensures
        exists|i: int|
            0 <= i < entries.len() && entries[i].0 == search_hits(entries, q)[h]
                && doc_matches(#[trigger] entries[i].1, q),
    decreases entries.len(),
{
    let tail = entries.subrange(1, entries.len() as int);
    if doc_matches(entries[0].1, q) {
        if h == 0 {
            assert(entries[0].0 == search_hits(entries, q)[0] && doc_matches(entries[0].1, q));
        } else {
            lemma_search_hits_sound(tail, q, h - 1);
            let i = choose|i: int|
                0 <= i < tail.len() && tail[i].0 == search_hits(tail, q)[h - 1] && doc_matches(
                    #[trigger] tail[i].1,
                    q,
                );
            assert(entries[i + 1].0 == search_hits(entries, q)[h] && doc_matches(
                entries[i + 1].1,
                q,
            ));
        }
    } else {
        lemma_search_hits_sound(tail, q, h);
        let i = choose|i: int|
            0 <= i < tail.len() && tail[i].0 == search_hits(tail, q)[h] && doc_matches(
                #[trigger] tail[i].1,
                q,
            );
        assert(entries[i + 1].0 == search_hits(entries, q)[h] && doc_matches(
            entries[i + 1].1,
            q,
        ));
    }
}

/// Search misses nothing: the key of every entry whose document matches
/// the query is among the hits.
pub proof fn lemma_search_hits_complete(entries: Seq<(Seq<u8>, DocView)>, q: Seq<u8>, i: int)
    requires
        0 <= i < entries.len(),
        doc_matches(entries[i].1, q),
    ensures
        search_hits(entries, q).contains(entries[i].0),
    decreases entries.len(),
{
    let tail = entries.subrange(1, entries.len() as int);
    if i == 0 {
        assert(search_hits(entries, q)[0] == entries[0].0);
    } else {
        lemma_search_hits_complete(tail, q, i - 1);
        let h = choose|h: int|
            0 <= h < search_hits(tail, q).len() && search_hits(tail, q)[h] == tail[i - 1].0;
        if doc_matches(entries[0].1, q) {
            assert(search_hits(entries, q)[h + 1] == entries[i].0);
        } else {
            assert(search_hits(entries, q)[h] == entries[i].0);
        }
    }
}

/// The document a successful Create or Overwrite stores: the request's
/// document with version one.
pub open spec fn overwrite_doc(d: DocView) -> DocView {
    DocView { version: 1u64, ..d }
}

/// The document a successful Update, or an Upsert of a present key,
/// stores: the request's document with the old body merged under the new
/// one and the old version incremented.
pub open spec fn updated_doc(d: DocView, old_d: DocView) -> DocView {
    DocView { version: (old_d.version + 1) as u64, source: merged(d.source, old_d.source), ..d }
}

/// What `write` does, mode by mode, for every request the engine accepts.
pub open spec fn write_spec(
    pre: Simba,
    post: Simba,
    req: WriteDocumentRequest,
    r: Result<(), EngineError>,
) -> bool {
    let d = req.doc.unwrap()@;
    let k = iid_of(d.id, d.sort_key);
    let m = pre.kv@;
    if !pre.check_writable_s() {
        &&& r == Err::<(), EngineError>(EngineError::EngineNotWritable)
        &&& Simba::same_stores(pre, post)
        &&& Simba::same_flags(pre, post)
    } else {
        match req.write_type {
            WriteType::Overwrite => r is Ok && Simba::put_effect(pre, post, k, overwrite_doc(d)),
            WriteType::Create => if m.contains_key(k) {
                r == Err::<(), EngineError>(EngineError::AlreadyExists) && Simba::same_stores(
                    pre,
                    post,
                ) && Simba::same_flags(pre, post)
            } else {
                r is Ok && Simba::put_effect(pre, post, k, overwrite_doc(d))
            },
            WriteType::Update => if !m.contains_key(k) {
                r == Err::<(), EngineError>(EngineError::NotFound) && Simba::same_stores(pre, post)
                    && Simba::same_flags(pre, post)
            } else if d.version > 0 && m[k].version != d.version {
                r == Err::<(), EngineError>(EngineError::VersionMismatch) && Simba::same_stores(
                    pre,
                    post,
                ) && Simba::same_flags(pre, post)
            } else if m[k].version == u64::MAX {
                r == Err::<(), EngineError>(EngineError::Internal) && Simba::same_stores(pre, post)
                    && Simba::same_flags(pre, post)
            } else {
                r is Ok && Simba::put_effect(pre, post, k, updated_doc(d, m[k]))
            },
            WriteType::Upsert => if m.contains_key(k) {
                if m[k].version == u64::MAX {
                    r == Err::<(), EngineError>(EngineError::Internal) && Simba::same_stores(
                        pre,
                        post,
                    ) && Simba::same_flags(pre, post)
                } else {
                    r is Ok && Simba::put_effect(pre, post, k, updated_doc(d, m[k]))
                }
            } else {
                r is Ok && Simba::put_effect(pre, post, k, overwrite_doc(d))
            },
            WriteType::Delete => r is Ok && Simba::del_effect(pre, post, k),
        }
    }
}

/// The document an accepted Upsert stores over map `m` at key `k`.
pub open spec fn upserted_doc(m: Map<Seq<u8>, DocView>, k: Seq<u8>, d: DocView) -> DocView {
    if m.contains_key(k) {
        updated_doc(d, m[k])
    } else {
        overwrite_doc(d)
    }
}

/// A store after a run of accepted upserts against one key.
pub open spec fn apply_upserts(
    m: Map<Seq<u8>, DocView>,
    k: Seq<u8>,
    ds: Seq<DocView>,
) -> Map<Seq<u8>, DocView>
    decreases ds.len(),
{
    if ds.len() == 0 {
        m
    } else {
        let prev = apply_upserts(m, k, ds.drop_last());
        prev.insert(k, upserted_doc(prev, k, ds.last()))
    }
}

/// Per-key serialization of versions: every accepted upsert against one
/// key raises the stored version by exactly one, so after a run of
/// accepted upserts of a key that started absent, the stored version
/// equals the count of accepted writes.
pub proof fn lemma_version_counts_writes(
    m: Map<Seq<u8>, DocView>,
    k: Seq<u8>,
    ds: Seq<DocView>,
)
    requires
        !m.contains_key(k),
        ds.len() <= u64::MAX,
    ensures
        ds.len() > 0 ==> apply_upserts(m, k, ds).contains_key(k) && apply_upserts(
            m,
            k,
            ds,
        )[k].version == ds.len(),
    decreases ds.len(),
{
    if ds.len() > 0 {
        lemma_version_counts_writes(m, k, ds.drop_last());
    }
}

/// Monotonic versioning on Update: an accepted update stores the old
/// version plus one, and so never lowers the version.
pub proof fn lemma_update_monotonic(d: DocView, old_d: DocView)
    requires
        old_d.version < u64::MAX,
    ensures
        updated_doc(d, old_d).version == old_d.version + 1,
        updated_doc(d, old_d).version > old_d.version,
{
}

/// Every record a valid log produces carries a version of at least one:
/// a stored document is always the value of some committed put.
pub proof fn lemma_stored_version_positive(s: Seq<EventView>, k: Seq<u8>)
    requires
        log_valid(s),
        apply_log(Map::<Seq<u8>, DocView>::empty(), s).contains_key(k),
    ensures
        apply_log(Map::<Seq<u8>, DocView>::empty(), s)[k].version >= 1,
{
    lemma_apply_log_at(Map::<Seq<u8>, DocView>::empty(), s, k);
    crate::oplog::lemma_last_write_put(s, k);
    match last_write(s, k) {
        Some(w) => match w {
            Some(v) => {
                let i = choose|i: int| 0 <= i < s.len() && s[i] == EventView::Put(k, v);
                assert(event_ok(s[i]));
            },
            None => {},
        },
        None => {},
    }
}

/// Every record the KV store persists carries a version of at least one.
pub proof fn lemma_engine_record_versions(e: Simba, k: Seq<u8>)
    requires
        e.inv(),
        e.kv@.contains_key(k),
    ensures
        e.kv@[k].version >= 1,
{
    lemma_stored_version_positive(e.log@, k);
}

/// Every record the KV store persists is identical to the last value the
/// log committed for its key, and the index agrees with the KV store.
pub proof fn lemma_record_matches_log(e: Simba, k: Seq<u8>)
    requires
        e.inv(),
        e.kv@.contains_key(k),
    ensures
        last_write(e.log@, k) == Some(Some(e.kv@[k])),
        e.index@ == e.kv@,
{
    lemma_apply_log_at(Map::<Seq<u8>, DocView>::empty(), e.log@, k);
}

/// The per-partition engine.
pub struct Simba {
    pub conf: Config,
    pub collection_id: u64,
    pub partition_id: u64,
    pub server_id: u64,
    pub readonly: bool,
    pub started: bool,
    pub writable: bool,
    pub stopped: bool,
    pub loaded: bool,
    pub start_latch: bool,
    pub max_sn: u64,
    pub latch: Latch,
    pub kv: DocTable,
    pub kv_sn: u64,
    pub index: DocTable,
    pub index_sn: u64,
    pub log: LogStore,
}

impl Simba {
    /// The engine invariant, short of the latch: both stores equal the
    /// whole log applied to an empty store, each persisted sequence number
    /// is at most the highest observed one, which counts the log entries,
    /// and a writable engine is started and loaded.
    pub open spec fn inv_core(&self) -> bool {
        &&& self.latch@.len() == LATCH_STRIPES as int
        &&& self.log@.len() == self.max_sn as int
        &&& self.kv_sn <= self.max_sn
        &&& self.index_sn <= self.max_sn
        &&& self.kv.wf()
        &&& self.index.wf()
        &&& self.kv@ == apply_log(Map::<Seq<u8>, DocView>::empty(), self.log@)
        &&& self.index@ == apply_log(Map::<Seq<u8>, DocView>::empty(), self.log@)
        &&& (self.writable ==> self.started && self.loaded)
        &&& log_valid(self.log@)
    }

    /// The engine invariant between calls: the core, with no write in
    /// flight in any stripe.
    pub open spec fn inv(&self) -> bool {
        self.inv_core() && self.latch.all_free()
    }

    /// The engine accepts writes only while started, leading, and not
    /// read-only.
    pub open spec fn check_writable_s(&self) -> bool {
        self.started && self.writable && !self.readonly
    }

    /// Stores, log, and watermarks are unchanged.
    pub open spec fn same_stores(pre: Simba, post: Simba) -> bool {
        &&& post.kv@ == pre.kv@
        &&& post.index@ == pre.index@
        &&& post.log@ == pre.log@
        &&& post.max_sn == pre.max_sn
        &&& post.kv_sn == pre.kv_sn
        &&& post.index_sn == pre.index_sn
    }

    /// Role and lifecycle flags are unchanged.
    pub open spec fn same_flags(pre: Simba, post: Simba) -> bool {
        &&& post.readonly == pre.readonly
        &&& post.started == pre.started
        &&& post.writable == pre.writable
        &&& post.stopped == pre.stopped
        &&& post.loaded == pre.loaded
        &&& post.start_latch == pre.start_latch
    }

    /// A committed put: both stores gain the document, the log gains the
    /// event, and the observed sequence number advances by one.
    pub open spec fn put_effect(pre: Simba, post: Simba, k: Seq<u8>, v: DocView) -> bool {
        &&& post.kv@ == pre.kv@.insert(k, v)
        &&& post.index@ == pre.index@.insert(k, v)
        &&& post.log@ == pre.log@.push(EventView::Put(k, v))
        &&& post.max_sn == pre.max_sn + 1
        &&& post.kv_sn == pre.kv_sn
        &&& post.index_sn == pre.index_sn
        &&& Self::same_flags(pre, post)
    }

    /// A committed delete, likewise.
    pub open spec fn del_effect(pre: Simba, post: Simba, k: Seq<u8>) -> bool {
        &&& post.kv@ == pre.kv@.remove(k)
        &&& post.index@ == pre.index@.remove(k)
        &&& post.log@ == pre.log@.push(EventView::Delete(k))
        &&& post.max_sn == pre.max_sn + 1
        &&& post.kv_sn == pre.kv_sn
        &&& post.index_sn == pre.index_sn
        &&& Self::same_flags(pre, post)
    }

    /// A new engine: started, not yet leading, stores empty.
    pub fn new(
        conf: Config,
        readonly: bool,
        collection_id: u64,
        partition_id: u64,
        server_id: u64,
        start_latch: bool,
    ) -> (r: Simba)
        ensures
            r.inv(),
            r.started,
            !r.writable,
            !r.stopped,
            !r.loaded,
            r.readonly == readonly,
            r.start_latch == start_latch,
            r.max_sn == 0,
            r.kv@ == Map::<Seq<u8>, DocView>::empty(),
            r.index@ == Map::<Seq<u8>, DocView>::empty(),
            r.log@ == Seq::<EventView>::empty(),
            r.collection_id == collection_id,
            r.partition_id == partition_id,
            r.server_id == server_id,
    {
        Simba {
            conf,
            collection_id,
            partition_id,
            server_id,
            readonly,
            started: true,
            writable: false,
            stopped: false,
            loaded: false,
            start_latch,
            max_sn: 0,
            latch: Latch::new(LATCH_STRIPES),
            kv: DocTable::new(),
            kv_sn: 0,
            index: DocTable::new(),
            index_sn: 0,
            log: LogStore::new(),
        }
    }

    /// Whether the engine was opened read-only.
    pub fn readonly(&self) -> (r: bool)
        ensures
            r == self.readonly,
    {
        self.readonly
    }

    /// Whether the engine accepts writes.
    fn check_writable(&self) -> (r: bool)
        ensures
            r == self.check_writable_s(),
    {
        self.started && self.writable && !self.readonly
    }

    /// The highest observed sequence number.
    pub fn get_sn(&self) -> (r: u64)
        ensures
            r == self.max_sn,
    {
        self.max_sn
    }

    /// Raise the observed sequence number to `sn` if that is higher. Only
    /// sequence numbers the log has assigned can be observed.
    pub fn set_sn_if_max(&mut self, sn: u64)
        requires
            old(self).max_sn as int <= old(self).log@.len(),
            sn as int <= old(self).log@.len(),
        ensures
            final(self).max_sn == if sn > old(self).max_sn {
                sn
            } else {
                old(self).max_sn
            },
            final(self).kv == old(self).kv,
            final(self).index == old(self).index,
            final(self).log == old(self).log,
            final(self).kv_sn == old(self).kv_sn,
            final(self).index_sn == old(self).index_sn,
            final(self).latch == old(self).latch,
            Self::same_flags(*old(self), *final(self)),
            old(self).inv() ==> final(self).inv(),
    {
        if self.max_sn < sn {
            self.max_sn = sn;
        }
    }

    /// Fetch the document stored under an internal id.
    fn get_by_iid(&self, iid: &Vec<u8>) -> (r: Result<Document, EngineError>)
        requires
            self.inv_core(),
            self.loaded,
        ensures
            match r {
                Ok(d) => self.kv@.contains_key(iid@) && d@ == self.kv@[iid@],
                Err(e) => e == EngineError::NotFound && !self.kv@.contains_key(iid@),
            },
    {
        match self.kv.get(iid) {
            Some(d) => Ok(d.dup()),
            None => Err(EngineError::NotFound),
        }
    }

    /// Point read: the raw stored document for `(id, sort_key)`, with no
    /// merge and no version check, or `NotFound`.
    pub fn get(&self, id: &Vec<u8>, sort_key: &Vec<u8>) -> (r: Result<Document, EngineError>)
        requires
            self.inv(),
            self.loaded,
            id@.len() <= u32::MAX,
        ensures
            match r {
                Ok(d) => self.kv@.contains_key(iid_of(id@, sort_key@)) && d@ == self.kv@[iid_of(
                    id@,
                    sort_key@,
                )],
                Err(e) => e == EngineError::NotFound && !self.kv@.contains_key(
                    iid_of(id@, sort_key@),
                ),
            },
    {
        let iid = id_coding(id, sort_key);
        self.get_by_iid(&iid)
    }

    /// Halt the background flush loop.
    pub fn stop(&mut self)
        requires
            old(self).inv(),
        ensures
            final(self).inv(),
            final(self).stopped,
            Self::same_stores(*old(self), *final(self)),
            final(self).started == old(self).started,
            final(self).writable == old(self).writable,
            final(self).loaded == old(self).loaded,
            final(self).readonly == old(self).readonly,
            final(self).start_latch == old(self).start_latch,
    {
        self.stopped = true;
    }

    /// One background flush step: snapshot the observed sequence number,
    /// flush both stores, and persist the snapshot as their watermarks.
    pub fn flush_tick(&mut self)
        requires
            old(self).inv(),
        ensures
            final(self).inv(),
            final(self).kv_sn == old(self).max_sn,
            final(self).index_sn == old(self).max_sn,
            final(self).kv@ == old(self).kv@,
            final(self).index@ == old(self).index@,
            final(self).log@ == old(self).log@,
            final(self).max_sn == old(self).max_sn,
            Self::same_flags(*old(self), *final(self)),
    {
        let pre_sn = self.get_sn();
        self.kv_sn = pre_sn;
        self.index_sn = pre_sn;
    }

    /// Apply a committed put to both stores and the log, then block on the
    /// commit callback. In order: KV write, index write, log append, wait.
    fn do_write(&mut self, key: Vec<u8>, value: Document) -> (r: Result<(), EngineError>)
        requires
            old(self).inv_core(),
            old(self).check_writable_s(),
            old(self).max_sn < u64::MAX,
            value@.version >= 1,
        ensures
            final(self).inv_core(),
            final(self).latch == old(self).latch,
            r is Ok,
            Self::put_effect(*old(self), *final(self), key@, value@),
    {
        let ghost k = key@;
        let ghost v = value@;
        let ghost log0 = self.log@;
        let key_ix = bytes_dup(&key);
        let key_log = bytes_dup(&key);
        let val_ix = value.dup();
        let val_log = value.dup();
        self.kv.put(key, value);
        self.index.put(key_ix, val_ix);
        let mut cb = WriteRaftCallback::new(1);
        let sn = self.log.append(LogEvent::Put { k: key_log, v: val_log });
        cb.call();
        self.set_sn_if_max(sn);
        proof {
            lemma_apply_log_push(
                Map::<Seq<u8>, DocView>::empty(),
                log0,
                EventView::Put(k, v),
            );
            assert forall|i: int| 0 <= i < self.log@.len() implies event_ok(
                #[trigger] self.log@[i],
            ) by {
                if i < log0.len() {
                    assert(event_ok(log0[i]));
                }
            }
        }
        Ok(())
    }

    /// Apply a committed delete to both stores and the log, then block on
    /// the commit callback.
    fn do_delete(&mut self, key: &Vec<u8>) -> (r: Result<(), EngineError>)
        requires
            old(self).inv_core(),
            old(self).check_writable_s(),
            old(self).max_sn < u64::MAX,
        ensures
            final(self).inv_core(),
            final(self).latch == old(self).latch,
            r is Ok,
            Self::del_effect(*old(self), *final(self), key@),
    {
        let ghost k = key@;
        let ghost log0 = self.log@;
        let key_log = bytes_dup(key);
        self.kv.del(key);
        self.index.del(key);
        let mut cb = WriteRaftCallback::new(1);
        let sn = self.log.append(LogEvent::Delete { k: key_log });
        cb.call();
        self.set_sn_if_max(sn);
        proof {
            lemma_apply_log_push(Map::<Seq<u8>, DocView>::empty(), log0, EventView::Delete(k));
            assert forall|i: int| 0 <= i < self.log@.len() implies event_ok(
                #[trigger] self.log@[i],
            ) by {
                if i < log0.len() {
                    assert(event_ok(log0[i]));
                }
            }
        }
        Ok(())
    }

    /// Create: fail if the document already exists, else store it with
    /// version one.
    fn create_doc(&mut self, doc: Document) -> (r: Result<(), EngineError>)
        requires
            old(self).inv_core(),
            old(self).check_writable_s(),
            old(self).max_sn < u64::MAX,
            key_fits(doc@),
        ensures
            final(self).inv_core(),
            final(self).latch == old(self).latch,
            ({
                let k = iid_of(doc@.id, doc@.sort_key);
                if old(self).kv@.contains_key(k) {
                    r == Err::<(), EngineError>(EngineError::AlreadyExists) && Self::same_stores(
                        *old(self),
                        *final(self),
                    ) && Self::same_flags(*old(self), *final(self))
                } else {
                    r is Ok && Self::put_effect(
                        *old(self),
                        *final(self),
                        k,
                        overwrite_doc(doc@),
                    )
                }
            }),
    {
        let mut doc = doc;
        let iid = doc.iid();
        match self.get_by_iid(&iid) {
            Ok(_) => Err(EngineError::AlreadyExists),
            Err(_) => {
                doc.version = 1;
                self.do_write(iid, doc)
            },
        }
    }

    /// Overwrite: store the document unconditionally with version one.
    fn overwrite(&mut self, doc: Document) -> (r: Result<(), EngineError>)
        requires
            old(self).inv_core(),
            old(self).check_writable_s(),
            old(self).max_sn < u64::MAX,
            key_fits(doc@),
        ensures
            final(self).inv_core(),
            final(self).latch == old(self).latch,
            r is Ok,
            Self::put_effect(
                *old(self),
                *final(self),
                iid_of(doc@.id, doc@.sort_key),
                overwrite_doc(doc@),
            ),
    {
        let mut doc = doc;
        let iid = doc.iid();
        doc.version = 1;
        self.do_write(iid, doc)
    }

    /// Update: fail if absent or on a stale expected version, else merge
    /// the old body under the new one and bump the version.
    fn update(&mut self, doc: Document) -> (r: Result<(), EngineError>)
        requires
            old(self).inv_core(),
            old(self).check_writable_s(),
            old(self).max_sn < u64::MAX,
            key_fits(doc@),
        ensures
            final(self).inv_core(),
            final(self).latch == old(self).latch,
            ({
                let k = iid_of(doc@.id, doc@.sort_key);
                let m = old(self).kv@;
                if !m.contains_key(k) {
                    r == Err::<(), EngineError>(EngineError::NotFound) && Self::same_stores(
                        *old(self),
                        *final(self),
                    ) && Self::same_flags(*old(self), *final(self))
                } else if doc@.version > 0 && m[k].version != doc@.version {
                    r == Err::<(), EngineError>(EngineError::VersionMismatch)
                        && Self::same_stores(*old(self), *final(self)) && Self::same_flags(
                        *old(self),
                        *final(self),
                    )
                } else if m[k].version == u64::MAX {
                    r == Err::<(), EngineError>(EngineError::Internal) && Self::same_stores(
                        *old(self),
                        *final(self),
                    ) && Self::same_flags(*old(self), *final(self))
                } else {
                    r is Ok && Self::put_effect(
                        *old(self),
                        *final(self),
                        k,
                        updated_doc(doc@, m[k]),
                    )
                }
            }),
    {
        let iid = doc.iid();
        let old_version: u64;
        let merged_source;
        match self.kv.get(&iid) {
            None => {
                return Err(EngineError::NotFound);
            },
            Some(old_doc) => {
                if doc.version > 0 && old_doc.version != doc.version {
                    return Err(EngineError::VersionMismatch);
                }
                if old_doc.version == u64::MAX {
                    return Err(EngineError::Internal);
                }
                old_version = old_doc.version;
                merged_source = merge(&doc.source, &old_doc.source);
            },
        }
        let new_doc = Document {
            id: doc.id,
            sort_key: doc.sort_key,
            slot: doc.slot,
            version: old_version + 1,
            source: merged_source,
        };
        self.do_write(iid, new_doc)
    }

    /// Upsert: merge over the stored document and bump its version, or
    /// store with version one when absent.
    fn upsert(&mut self, doc: Document) -> (r: Result<(), EngineError>)
        requires
            old(self).inv_core(),
            old(self).check_writable_s(),
            old(self).max_sn < u64::MAX,
            key_fits(doc@),
        ensures
            final(self).inv_core(),
            final(self).latch == old(self).latch,
            ({
                let k = iid_of(doc@.id, doc@.sort_key);
                let m = old(self).kv@;
                if m.contains_key(k) {
                    if m[k].version == u64::MAX {
                        r == Err::<(), EngineError>(EngineError::Internal) && Self::same_stores(
                            *old(self),
                            *final(self),
                        ) && Self::same_flags(*old(self), *final(self))
                    } else {
                        r is Ok && Self::put_effect(
                            *old(self),
                            *final(self),
                            k,
                            updated_doc(doc@, m[k]),
                        )
                    }
                } else {
                    r is Ok && Self::put_effect(
                        *old(self),
                        *final(self),
                        k,
                        overwrite_doc(doc@),
                    )
                }
            }),
    {
        let mut doc = doc;
        let iid = doc.iid();
        let found: bool;
        let mut old_version: u64 = 0;
        let mut merged_source = JsonValue::Null;
        match self.kv.get(&iid) {
            None => {
                found = false;
            },
            Some(old_doc) => {
                if old_doc.version == u64::MAX {
                    return Err(EngineError::Internal);
                }
                found = true;
                old_version = old_doc.version;
                merged_source = merge(&doc.source, &old_doc.source);
            },
        }
        if found {
            let new_doc = Document {
                id: doc.id,
                sort_key: doc.sort_key,
                slot: doc.slot,
                version: old_version + 1,
                source: merged_source,
            };
            self.do_write(iid, new_doc)
        } else {
            doc.version = 1;
            self.do_write(iid, doc)
        }
    }

    /// Delete: commit a delete for the document's internal id.
    fn delete_doc(&mut self, doc: Document) -> (r: Result<(), EngineError>)
        requires
            old(self).inv_core(),
            old(self).check_writable_s(),
            old(self).max_sn < u64::MAX,
            key_fits(doc@),
        ensures
            final(self).inv_core(),
            final(self).latch == old(self).latch,
            r is Ok,
            Self::del_effect(*old(self), *final(self), iid_of(doc@.id, doc@.sort_key)),
    {
        let iid = doc.iid();
        self.do_delete(&iid)
    }

    /// Apply a write request under the slot latch: compute the internal
    /// id, latch the slot's stripe, refuse unless writable, then run the
    /// mode's state machine and block until the log commits.
    pub fn write(&mut self, req: WriteDocumentRequest) -> (r: Result<(), EngineError>)
        requires
            old(self).inv(),
            req.doc is Some,
            key_fits(req.doc.unwrap()@),
            old(self).max_sn < u64::MAX,
        ensures
            final(self).inv(),
            write_spec(*old(self), *final(self), req, r),
    {
        let doc = req.doc.unwrap();
        let slot = doc.slot;
        self.latch.acquire(slot);
        if !self.check_writable() {
            self.latch.release(slot);
            return Err(EngineError::EngineNotWritable);
        }
        let r = match req.write_type {
            WriteType::Overwrite => self.overwrite(doc),
            WriteType::Create => self.create_doc(doc),
            WriteType::Update => self.update(doc),
            WriteType::Upsert => self.upsert(doc),
            WriteType::Delete => self.delete_doc(doc),
        };
        self.latch.release(slot);
        r
    }

    /// Open fresh store handles and replay the log from the smaller
    /// persisted watermark. An entry is applied to a store only if its
    /// index lies past the store's watermark; a store already past the
    /// entry skips it. Replay leaves both stores holding exactly what the
    /// whole log produces, and the engine becomes writable.
    fn load_engine(&mut self)
        requires
            old(self).inv_core(),
            old(self).started,
        ensures
            final(self).inv_core(),
            final(self).latch == old(self).latch,
            Self::same_stores(*old(self), *final(self)),
            final(self).loaded,
            final(self).writable,
            final(self).started == old(self).started,
            final(self).stopped == old(self).stopped,
            final(self).readonly == old(self).readonly,
            final(self).start_latch == old(self).start_latch,
    {
        self.loaded = true;
        let from: u64 = if self.kv_sn < self.index_sn {
            self.kv_sn
        } else {
            self.index_sn
        };
        let ghost pre = *self;
        let ghost gl = self.log@;
        let ghost m0 = apply_log(Map::<Seq<u8>, DocView>::empty(), gl);
        let ghost jkv = self.kv_sn as int;
        let ghost jix = self.index_sn as int;
        let len = self.log.len();
        let mut i: usize = from as usize;
        while i < len
            invariant
                self.log@ == gl,
                gl.len() == len,
                log_valid(gl),
                from as int <= i as int <= len as int,
                from as int <= jkv <= gl.len(),
                from as int <= jix <= gl.len(),
                jkv == self.kv_sn as int,
                jix == self.index_sn as int,
                self.kv.wf(),
                self.index.wf(),
                i as int <= jkv ==> self.kv@ == m0,
                i as int > jkv ==> self.kv@ == apply_log(m0, gl.subrange(jkv, i as int)),
                i as int <= jix ==> self.index@ == m0,
                i as int > jix ==> self.index@ == apply_log(m0, gl.subrange(jix, i as int)),
                self.log == pre.log,
                self.latch == pre.latch,
                self.max_sn == pre.max_sn,
                self.loaded,
                self.started == pre.started,
                self.writable == pre.writable,
                self.stopped == pre.stopped,
                self.readonly == pre.readonly,
                self.start_latch == pre.start_latch,
            decreases len - i,
        {
            let idx_prev: u64 = i as u64;
            if idx_prev >= self.kv_sn {
                let ghost cur = self.kv@;
                match self.log.event_at(i) {
                    LogEvent::Put { k, v } => {
                        let kk = bytes_dup(k);
                        let vv = v.dup();
                        self.kv.put(kk, vv);
                    },
                    LogEvent::Delete { k } => {
                        let kk = bytes_dup(k);
                        self.kv.del(&kk);
                    },
                }
                proof {
                    assert(self.kv@ == apply_event(cur, gl[i as int]));
                    if i as int == jkv {
                        assert(gl.subrange(jkv, jkv) =~= Seq::<EventView>::empty());
                        assert(apply_log(m0, gl.subrange(jkv, jkv)) == m0);
                    }
                    lemma_apply_log_push(m0, gl.subrange(jkv, i as int), gl[i as int]);
                    assert(gl.subrange(jkv, i + 1) =~= gl.subrange(jkv, i as int).push(
                        gl[i as int],
                    ));
                }
            }
            if idx_prev >= self.index_sn {
                let ghost cur = self.index@;
                match self.log.event_at(i) {
                    LogEvent::Put { k, v } => {
                        let kk = bytes_dup(k);
                        let vv = v.dup();
                        self.index.put(kk, vv);
                    },
                    LogEvent::Delete { k } => {
                        let kk = bytes_dup(k);
                        self.index.del(&kk);
                    },
                }
                proof {
                    assert(self.index@ == apply_event(cur, gl[i as int]));
                    if i as int == jix {
                        assert(gl.subrange(jix, jix) =~= Seq::<EventView>::empty());
                        assert(apply_log(m0, gl.subrange(jix, jix)) == m0);
                    }
                    lemma_apply_log_push(m0, gl.subrange(jix, i as int), gl[i as int]);
                    assert(gl.subrange(jix, i + 1) =~= gl.subrange(jix, i as int).push(
                        gl[i as int],
                    ));
                }
            }
            i = i + 1;
        }
        proof {
            lemma_reapply_suffix(gl, jkv);
            lemma_reapply_suffix(gl, jix);
            assert(gl.subrange(jkv, gl.len() as int) == gl.subrange(jkv, len as int));
            assert(gl.subrange(jix, gl.len() as int) == gl.subrange(jix, len as int));
        }
        self.writable = true;
    }

    /// Leave the leader role: stop accepting writes and release both
    /// store handles. The durable contents stay behind for the next load.
    fn offload_engine(&mut self)
        requires
            old(self).inv_core(),
        ensures
            final(self).inv_core(),
            final(self).latch == old(self).latch,
            Self::same_stores(*old(self), *final(self)),
            !final(self).writable,
            !final(self).loaded,
            final(self).started == old(self).started,
            final(self).stopped == old(self).stopped,
            final(self).readonly == old(self).readonly,
            final(self).start_latch == old(self).start_latch,
    {
        self.writable = false;
        self.loaded = false;
    }

    /// Role transition, idempotent in the current role: a leader loads
    /// fresh handles and replays the log from the smaller persisted
    /// watermark; a follower releases its handles and refuses writes.
    /// Either way the one-shot start latch is signalled. The sentinel
    /// stripe is held across the transition.
    pub fn role_change(&mut self, is_leader: bool)
        requires
            old(self).inv(),
        ensures
            final(self).inv(),
            Self::same_stores(*old(self), *final(self)),
            !old(self).started ==> Self::same_flags(*old(self), *final(self)),
            old(self).started ==> !final(self).start_latch && final(self).started == old(
                self,
            ).started && final(self).stopped == old(self).stopped && final(self).readonly == old(
                self,
            ).readonly,
            old(self).started && is_leader ==> final(self).loaded && final(self).writable,
            old(self).started && !is_leader ==> !final(self).loaded && !final(self).writable,
    {
        if self.started {
            self.latch.acquire(u32::MAX);
            if is_leader {
                self.load_engine();
            } else {
                self.offload_engine();
            }
            self.start_latch = false;
            self.latch.release(u32::MAX);
        }
    }

    /// Stop accepting work and release the engines: the flush loop is
    /// halted by `stop`, then this releases the store handles.
    pub fn release(&mut self)
        requires
            old(self).inv(),
        ensures
            final(self).inv(),
            Self::same_stores(*old(self), *final(self)),
            !final(self).started,
            !final(self).writable,
            !final(self).loaded,
            final(self).stopped == old(self).stopped,
            final(self).readonly == old(self).readonly,
            final(self).start_latch == old(self).start_latch,
    {
        self.offload_engine();
        self.started = false;
    }

    /// Search the index: the internal ids of the documents whose body is
    /// an object holding the queried top-level key. While the engine is
    /// not loaded, a structured error response comes back instead.
    pub fn search(&self, req: &SearchDocumentRequest) -> (r: SearchDocumentResponse)
        requires
            self.inv(),
        ensures
            self.loaded ==> r.code == CODE_SUCCESS && keys_view(r.hits@) == search_hits(
                self.index.entries_s(),
                req.query_key@,
            ) && r.total == r.hits@.len() && r.info is None,
            !self.loaded ==> r.code == CODE_INTERNAL && r.total == 0 && r.hits@.len() == 0
                && r.info is Some && r.info.unwrap().error == 1,
    {
        if !self.loaded {
            let mut msg: Vec<u8> = Vec::new();
            msg.push(111u8);
            msg.push(102u8);
            msg.push(102u8);
            return SearchDocumentResponse {
                code: CODE_INTERNAL,
                total: 0,
                hits: Vec::new(),
                info: Some(SearchInfo { error: 1, success: 0, message: msg }),
            };
        }
        let ghost ge = self.index.entries_s();
        let ghost q = req.query_key@;
        let n = self.index.entry_count();
        let mut hits: Vec<Vec<u8>> = Vec::new();
        let mut i: usize = 0;
        proof {
            assert(ge.subrange(0, ge.len() as int) =~= ge);
            assert(keys_view(hits@) + search_hits(ge, q) =~= search_hits(ge, q));
        }
        while i < n
            invariant
                n == ge.len(),
                ge == self.index.entries_s(),
                q == req.query_key@,
                i <= n,
                search_hits(ge, q) == keys_view(hits@) + search_hits(
                    ge.subrange(i as int, ge.len() as int),
                    q,
                ),
            decreases n - i,
        {
            let ghost suf = ge.subrange(i as int, ge.len() as int);
            proof {
                assert(suf[0] == ge[i as int]);
                assert(suf.subrange(1, suf.len() as int) =~= ge.subrange(
                    i + 1,
                    ge.len() as int,
                ));
            }
            let (k, d) = self.index.entry_at(i);
            let ghost hits_pre = hits@;
            match d.source.top_get(&req.query_key) {
                Some(_) => {
                    hits.push(bytes_dup(k));
                    proof {
                        assert(doc_matches(ge[i as int].1, q));
                        assert(keys_view(hits@) =~= keys_view(hits_pre).push(ge[i as int].0));
                        assert(keys_view(hits_pre) + search_hits(suf, q) =~= keys_view(hits@)
                            + search_hits(ge.subrange(i + 1, ge.len() as int), q));
                    }
                },
                None => {
                    proof {
                        assert(!doc_matches(ge[i as int].1, q));
                    }
                },
            }
            i = i + 1;
        }
        proof {
            assert(ge.subrange(i as int, ge.len() as int) =~= Seq::<(Seq<u8>, DocView)>::empty());
            assert(keys_view(hits@) + search_hits(
                ge.subrange(i as int, ge.len() as int),
                q,
            ) =~= keys_view(hits@));
        }
        let total = hits.len() as u64;
        SearchDocumentResponse { code: CODE_SUCCESS, total, hits, info: None }
    }

    /// Estimated document count of the KV store and exact count of the
    /// index.
    pub fn count(&self) -> (r: (u64, u64))
        requires
            self.inv(),
            self.loaded,
        ensures
            r.0 == self.kv@.dom().len(),
            r.1 == self.index@.dom().len(),
    {
        (self.kv.count() as u64, self.index.count() as u64)
    }
}

} // verus!
