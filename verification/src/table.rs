//! A document table keyed by internal id, the model shared by the KV store
//! and the search index: a map from id to document with unique keys.

use vstd::prelude::*;

use crate::doc::bytes_eq;
use crate::doc::DocView;
use crate::doc::Document;

verus! {

broadcast use vstd::set::axiom_set_insert_len;

/// The map described by a sequence of keyed entries, later entries winning.
pub open spec fn to_map(s: Seq<(Seq<u8>, DocView)>) -> Map<Seq<u8>, DocView>
    decreases s.len(),
{
    if s.len() == 0 {
        Map::empty()
    } else {
        to_map(s.drop_last()).insert(s.last().0, s.last().1)
    }
}

/// Every entry of a table with unique keys is in its map.
pub proof fn lemma_to_map_get(s: Seq<(Seq<u8>, DocView)>, i: int)
    requires
        forall|p: int, q: int| 0 <= p < q < s.len() ==> s[p].0 != s[q].0,
        0 <= i < s.len(),
    ensures
        to_map(s).contains_key(s[i].0),
        to_map(s)[s[i].0] == s[i].1,
    decreases s.len(),
{
    if i < s.len() - 1 {
        lemma_to_map_get(s.drop_last(), i);
    }
}

/// A key held by no entry is not in the map.
pub proof fn lemma_to_map_none(s: Seq<(Seq<u8>, DocView)>, k: Seq<u8>)
    requires
        forall|p: int| 0 <= p < s.len() ==> s[p].0 != k,
    ensures
        !to_map(s).contains_key(k),
    decreases s.len(),
{
    if s.len() > 0 {
        lemma_to_map_none(s.drop_last(), k);
    }
}

/// With unique keys, the map of a table has one element per entry.
pub proof fn lemma_to_map_len(s: Seq<(Seq<u8>, DocView)>)
    requires
        forall|p: int, q: int| 0 <= p < q < s.len() ==> s[p].0 != s[q].0,
    ensures
        to_map(s).dom().finite(),
        to_map(s).dom().len() == s.len(),
    decreases s.len(),
{
    if s.len() > 0 {
        lemma_to_map_len(s.drop_last());
        lemma_to_map_none(s.drop_last(), s.last().0);
        assert(to_map(s).dom() =~= to_map(s.drop_last()).dom().insert(s.last().0));
    }
}

/// Replacing the entry that holds a key updates the map at that key.
proof fn lemma_to_map_update(s: Seq<(Seq<u8>, DocView)>, i: int, v: (Seq<u8>, DocView))
    requires
        forall|p: int, q: int| 0 <= p < q < s.len() ==> s[p].0 != s[q].0,
        0 <= i < s.len(),
        s[i].0 == v.0,
    ensures
        to_map(s.update(i, v)) == to_map(s).insert(v.0, v.1),
    decreases s.len(),
{
    let t = s.update(i, v);
    if i == s.len() - 1 {
        assert(t.drop_last() =~= s.drop_last());
        assert(to_map(t) =~= to_map(s).insert(v.0, v.1));
    } else {
        lemma_to_map_update(s.drop_last(), i, v);
        assert(t.drop_last() =~= s.drop_last().update(i, v));
        assert(t.last() == s.last());
        assert(to_map(t) == to_map(s.drop_last()).insert(v.0, v.1).insert(
            s.last().0,
            s.last().1,
        ));
        assert(to_map(t) =~= to_map(s).insert(v.0, v.1));
    }
}

/// Removing the entry that holds a key removes the key from the map.
proof fn lemma_to_map_remove(s: Seq<(Seq<u8>, DocView)>, i: int)
    requires
        forall|p: int, q: int| 0 <= p < q < s.len() ==> s[p].0 != s[q].0,
        0 <= i < s.len(),
    ensures
        to_map(s.remove(i)) == to_map(s).remove(s[i].0),
    decreases s.len(),
{
    let t = s.remove(i);
    if i == s.len() - 1 {
        assert(t =~= s.drop_last());
        lemma_to_map_none(s.drop_last(), s.last().0);
        assert(to_map(t) =~= to_map(s).remove(s[i].0));
    } else {
        lemma_to_map_remove(s.drop_last(), i);
        assert(t.drop_last() =~= s.drop_last().remove(i));
        assert(t.last() == s.last());
        assert(to_map(t) == to_map(s.drop_last()).remove(s[i].0).insert(
            s.last().0,
            s.last().1,
        ));
        assert(to_map(t) =~= to_map(s).remove(s[i].0));
    }
}

/// A document table keyed by internal id.
pub struct DocTable {
    entries: Vec<(Vec<u8>, Document)>,
}

impl View for DocTable {
    type V = Map<Seq<u8>, DocView>;

    open spec fn view(&self) -> Map<Seq<u8>, DocView> {
        to_map(self.entries_s())
    }
}

impl DocTable {
    /// The entries in table order.
    pub closed spec fn entries_s(&self) -> Seq<(Seq<u8>, DocView)> {
        Seq::new(self.entries@.len(), |i: int| (self.entries@[i].0@, self.entries@[i].1@))
    }

    /// Keys are unique.
    pub open spec fn wf(&self) -> bool {
        forall|p: int, q: int|
            0 <= p < q < self.entries_s().len() ==> self.entries_s()[p].0
                != self.entries_s()[q].0
    }

    /// An empty table.
    pub fn new() -> (r: DocTable)
        ensures
            r.wf(),
            r@ == Map::<Seq<u8>, DocView>::empty(),
            r.entries_s() == Seq::<(Seq<u8>, DocView)>::empty(),
    {
        let r = DocTable { entries: Vec::new() };
        proof {
            assert(r.entries_s() =~= Seq::<(Seq<u8>, DocView)>::empty());
        }
        r
    }

    /// The position of the entry holding key `k`.
    fn find(&self, k: &Vec<u8>) -> (r: Option<usize>)
        ensures
            match r {
                Some(i) => i < self.entries_s().len() && self.entries_s()[i as int].0 == k@,
                None => forall|p: int|
                    0 <= p < self.entries_s().len() ==> self.entries_s()[p].0 != k@,
            },
    {
        let mut i: usize = 0;
        while i < self.entries.len()
            invariant
                i <= self.entries.len(),
                forall|p: int| 0 <= p < i ==> self.entries_s()[p].0 != k@,
            decreases self.entries.len() - i,
        {
            if bytes_eq(&self.entries[i].0, k) {
                return Some(i);
            }
            i = i + 1;
        }
        None
    }

    /// Borrow the document stored under key `k`.
    pub fn get(&self, k: &Vec<u8>) -> (r: Option<&Document>)
        requires
            self.wf(),
        ensures
            match r {
                Some(d) => self@.contains_key(k@) && d@ == self@[k@],
                None => !self@.contains_key(k@),
            },
    {
        match self.find(k) {
            Some(i) => {
                proof {
                    lemma_to_map_get(self.entries_s(), i as int);
                }
                Some(&self.entries[i].1)
            },
            None => {
                proof {
                    lemma_to_map_none(self.entries_s(), k@);
                }
                None
            },
        }
    }

    /// Store `d` under key `k`, replacing any previous document.
    pub fn put(&mut self, k: Vec<u8>, d: Document)
        requires
            old(self).wf(),
        ensures
            final(self).wf(),
            final(self)@ == old(self)@.insert(k@, d@),
            final(self).entries_s().len() <= old(self).entries_s().len() + 1,
    {
        let ghost s0 = self.entries_s();
        match self.find(&k) {
            Some(i) => {
                let ghost kk = k@;
                let ghost dd = d@;
                self.entries[i] = (k, d);
                proof {
                    assert(self.entries_s() =~= s0.update(i as int, (kk, dd)));
                    lemma_to_map_update(s0, i as int, (kk, dd));
                }
            },
            None => {
                let ghost kk = k@;
                let ghost dd = d@;
                self.entries.push((k, d));
                proof {
                    assert(self.entries_s() =~= s0.push((kk, dd)));
                    assert(self.entries_s().drop_last() =~= s0);
                }
            },
        }
    }

    /// Remove the document stored under key `k`, if any.
    pub fn del(&mut self, k: &Vec<u8>)
        requires
            old(self).wf(),
        ensures
            final(self).wf(),
            final(self)@ == old(self)@.remove(k@),
    {
        let ghost s0 = self.entries_s();
        match self.find(k) {
            Some(i) => {
                self.entries.remove(i);
                proof {
                    assert(self.entries_s() =~= s0.remove(i as int));
                    lemma_to_map_remove(s0, i as int);
                }
            },
            None => {
                proof {
                    lemma_to_map_none(s0, k@);
                    assert(self@ =~= self@.remove(k@));
                }
            },
        }
    }

    /// The number of documents held.
    pub fn count(&self) -> (r: usize)
        requires
            self.wf(),
        ensures
            r == self@.dom().len(),
    {
        proof {
            lemma_to_map_len(self.entries_s());
        }
        self.entries.len()
    }

    /// The number of entries.
    pub fn entry_count(&self) -> (r: usize)
        ensures
            r == self.entries_s().len(),
    {
        self.entries.len()
    }

    /// Borrow the entry at position `i`.
    pub fn entry_at(&self, i: usize) -> (r: (&Vec<u8>, &Document))
        requires
            i < self.entries_s().len(),
        ensures
            r.0@ == self.entries_s()[i as int].0,
            r.1@ == self.entries_s()[i as int].1,
    {
        (&self.entries[i].0, &self.entries[i].1)
    }
}

} // verus!
