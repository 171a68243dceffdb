//! The replicated operation log, and the replay theory: what a log prefix
//! does to a store, and why replaying it again changes nothing.

use vstd::prelude::*;

use crate::doc::DocView;
use crate::doc::Document;

verus! {

/// A committed log entry: a document put or a delete, keyed by internal id.
pub enum LogEvent {
    Put { k: Vec<u8>, v: Document },
    Delete { k: Vec<u8> },
}

/// The model of a log entry.
#[verifier::ext_equal]
pub enum EventView {
    Put(Seq<u8>, DocView),
    Delete(Seq<u8>),
}

impl View for LogEvent {
    type V = EventView;

    open spec fn view(&self) -> EventView {
        match self {
            LogEvent::Put { k, v } => EventView::Put(k@, v@),
            LogEvent::Delete { k } => EventView::Delete(k@),
        }
    }
}

/// The key an event touches.
pub open spec fn event_key(e: EventView) -> Seq<u8> {
    match e {
        EventView::Put(k, _) => k,
        EventView::Delete(k) => k,
    }
}

/// One event applied to a store.
pub open spec fn apply_event(m: Map<Seq<u8>, DocView>, e: EventView) -> Map<Seq<u8>, DocView> {
    match e {
        EventView::Put(k, v) => m.insert(k, v),
        EventView::Delete(k) => m.remove(k),
    }
}

/// A sequence of events applied in order.
pub open spec fn apply_log(m: Map<Seq<u8>, DocView>, s: Seq<EventView>) -> Map<Seq<u8>, DocView>
    decreases s.len(),
{
    if s.len() == 0 {
        m
    } else {
        apply_log(apply_event(m, s[0]), s.subrange(1, s.len() as int))
    }
}

/// Appending one event applies it last.
pub proof fn lemma_apply_log_push(m: Map<Seq<u8>, DocView>, s: Seq<EventView>, e: EventView)
    ensures
        apply_log(m, s.push(e)) == apply_event(apply_log(m, s), e),
    decreases s.len(),
{
    let t = s.push(e);
    if s.len() == 0 {
        assert(t.subrange(1, t.len() as int) =~= Seq::<EventView>::empty());
        assert(t[0] == e);
        assert(apply_log(m, t) == apply_log(apply_event(m, e), t.subrange(1, t.len() as int)));
        assert(apply_log(apply_event(m, e), t.subrange(1, t.len() as int)) == apply_event(m, e));
        assert(apply_log(m, s) == m);
    } else {
        let tail = s.subrange(1, s.len() as int);
        assert(t[0] == s[0]);
        assert(t.subrange(1, t.len() as int) =~= tail.push(e));
        assert(apply_log(m, t) == apply_log(apply_event(m, s[0]), tail.push(e)));
        lemma_apply_log_push(apply_event(m, s[0]), tail, e);
        assert(apply_log(m, s) == apply_log(apply_event(m, s[0]), tail));
    }
}

/// Applying a concatenation applies the parts in turn.
pub proof fn lemma_apply_log_concat(
    m: Map<Seq<u8>, DocView>,
    s1: Seq<EventView>,
    s2: Seq<EventView>,
)
    ensures
        apply_log(m, s1 + s2) == apply_log(apply_log(m, s1), s2),
    decreases s2.len(),
{
    if s2.len() == 0 {
        assert(s1 + s2 =~= s1);
    } else {
        let e = s2.last();
        let s2p = s2.drop_last();
        assert(s2p.push(e) =~= s2);
        assert(s1 + s2 =~= (s1 + s2p).push(e));
        lemma_apply_log_push(m, s1 + s2p, e);
        lemma_apply_log_concat(m, s1, s2p);
        lemma_apply_log_push(apply_log(m, s1), s2p, e);
    }
}

/// The last effect a log has on a key: untouched, put with a value, or
/// deleted.
pub open spec fn last_write(s: Seq<EventView>, k: Seq<u8>) -> Option<Option<DocView>>
    decreases s.len(),
{
    if s.len() == 0 {
        None
    } else if event_key(s.last()) == k {
        match s.last() {
            EventView::Put(_, v) => Some(Some(v)),
            EventView::Delete(_) => Some(None),
        }
    } else {
        last_write(s.drop_last(), k)
    }
}

/// What a store holds at a key after a log is applied: the log's last
/// effect on the key, or the store's previous state where the log never
/// touches it.
pub proof fn lemma_apply_log_at(m: Map<Seq<u8>, DocView>, s: Seq<EventView>, k: Seq<u8>)
    ensures
        match last_write(s, k) {
            None => apply_log(m, s).contains_key(k) == m.contains_key(k) && (m.contains_key(k)
                ==> apply_log(m, s)[k] == m[k]),
            Some(w) => match w {
                Some(v) => apply_log(m, s).contains_key(k) && apply_log(m, s)[k] == v,
                None => !apply_log(m, s).contains_key(k),
            },
        },
    decreases s.len(),
{
    if s.len() > 0 {
        let e = s.last();
        assert(s.drop_last().push(e) =~= s);
        lemma_apply_log_push(m, s.drop_last(), e);
        lemma_apply_log_at(m, s.drop_last(), k);
    }
}

/// A log's last effect on a key, when it is a put, carries the value of
/// one of the log's put events.
pub proof fn lemma_last_write_put(s: Seq<EventView>, k: Seq<u8>)
    ensures
        match last_write(s, k) {
            Some(w) => match w {
                Some(v) => exists|i: int|
                    0 <= i < s.len() && s[i] == EventView::Put(k, v),
                None => true,
            },
            None => true,
        },
    decreases s.len(),
{
    if s.len() > 0 {
        if event_key(s.last()) != k {
            lemma_last_write_put(s.drop_last(), k);
            match last_write(s, k) {
                Some(w) => match w {
                    Some(v) => {
                        let i = choose|i: int|
                            0 <= i < s.drop_last().len() && s.drop_last()[i] == EventView::Put(
                                k,
                                v,
                            );
                        assert(s[i] == EventView::Put(k, v));
                    },
                    None => {},
                },
                None => {},
            }
        }
    }
}

/// Replaying a log prefix a second time leaves a store exactly as the
/// first replay left it: the per-key effect of a prefix is determined by
/// its last event on the key.
pub proof fn lemma_replay_idempotent(m: Map<Seq<u8>, DocView>, s: Seq<EventView>)
    ensures
        apply_log(apply_log(m, s), s) == apply_log(m, s),
{
    let m1 = apply_log(m, s);
    let m2 = apply_log(m1, s);
    assert forall|k: Seq<u8>| #[trigger] m2.contains_key(k) == m1.contains_key(k) && (
    m1.contains_key(k) ==> m2[k] == m1[k]) by {
        lemma_apply_log_at(m, s, k);
        lemma_apply_log_at(m1, s, k);
    }
    assert forall|k: Seq<u8>| m1.contains_key(k) implies m2.contains_key(k) && m2[k] == m1[k] by {
        lemma_apply_log_at(m, s, k);
        lemma_apply_log_at(m1, s, k);
    }
    assert forall|k: Seq<u8>| m2.contains_key(k) implies m1.contains_key(k) by {
        lemma_apply_log_at(m, s, k);
        lemma_apply_log_at(m1, s, k);
    }
    assert(m2 =~= m1);
}

/// Replaying any suffix of a log over the state the whole log produced
/// changes nothing: recovery may resume from any persisted watermark.
pub proof fn lemma_reapply_suffix(s: Seq<EventView>, j: int)
    requires
        0 <= j <= s.len(),
    ensures
        apply_log(
            apply_log(Map::<Seq<u8>, DocView>::empty(), s),
            s.subrange(j, s.len() as int),
        ) == apply_log(Map::<Seq<u8>, DocView>::empty(), s),
{
    let pre = s.subrange(0, j);
    let suf = s.subrange(j, s.len() as int);
    assert(pre + suf =~= s);
    lemma_apply_log_concat(Map::<Seq<u8>, DocView>::empty(), pre, suf);
    lemma_replay_idempotent(apply_log(Map::<Seq<u8>, DocView>::empty(), pre), suf);
}

/// The in-order record of committed mutations. An entry's sequence number
/// is its position, counted from one.
pub struct LogStore {
    entries: Vec<LogEvent>,
}

impl View for LogStore {
    type V = Seq<EventView>;

    closed spec fn view(&self) -> Seq<EventView> {
        Seq::new(self.entries@.len(), |i: int| self.entries@[i]@)
    }
}

impl LogStore {
    /// An empty log.
    pub fn new() -> (r: LogStore)
        ensures
            r@ == Seq::<EventView>::empty(),
    {
        let r = LogStore { entries: Vec::new() };
        proof {
            assert(r@ =~= Seq::<EventView>::empty());
        }
        r
    }

    /// Append a committed event; the returned sequence number is the
    /// entry's index, counted from one.
    pub fn append(&mut self, e: LogEvent) -> (sn: u64)
        requires
            old(self)@.len() < u64::MAX,
        ensures
            final(self)@ == old(self)@.push(e@),
            sn == old(self)@.len() + 1,
    {
        let ghost ev = e@;
        let ghost s0 = self@;
        self.entries.push(e);
        proof {
            assert(self@ =~= s0.push(ev));
        }
        self.entries.len() as u64
    }

    /// The number of committed entries.
    pub fn len(&self) -> (r: usize)
        ensures
            r == self@.len(),
    {
        self.entries.len()
    }

    /// Borrow the entry at position `i`.
    pub fn event_at(&self, i: usize) -> (r: &LogEvent)
        requires
            i < self@.len(),
        ensures
            r@ == self@[i as int],
    {
        &self.entries[i]
    }
}

} // verus!
