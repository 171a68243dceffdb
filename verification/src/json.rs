//! Structured document bodies and the deep-merge rule used by Update and
//! Upsert.
//!
//! A body is a JSON-like value. The engine introspects it only to merge an
//! old body into a new one: for a pair of objects the merge recurses key by
//! key, the new value overriding the old one, and keys present only in the
//! old object are kept; for any other pair the new value replaces the old.

use vstd::prelude::*;

use crate::doc::bytes_dup;
use crate::doc::bytes_eq;

verus! {

broadcast use vstd::std_specs::vec::group_vec_axioms;

/// The mathematical model of a document body. Object entries keep their
/// order; keys and text are byte strings; numbers are 64-bit integers.
#[verifier::ext_equal]
pub enum JsonVal {
    Null,
    Bool(bool),
    Int(i64),
    Str(Seq<u8>),
    Arr(Seq<JsonVal>),
    Obj(Seq<(Seq<u8>, JsonVal)>),
}

/// The executable form of a document body.
#[derive(Debug, PartialEq, Eq)]
pub enum JsonValue {
    Null,
    Bool(bool),
    Int(i64),
    Str(Vec<u8>),
    Arr(Vec<JsonValue>),
    Obj(Vec<(Vec<u8>, JsonValue)>),
}

/// The model of a sequence of executable object entries.
pub open spec fn entries_view(o: Seq<(Vec<u8>, JsonValue)>) -> Seq<(Seq<u8>, JsonVal)>
    decreases o
    via entries_view_dec
{
    if o.len() == 0 {
        Seq::empty()
    } else {
        entries_view(o.subrange(0, o.len() - 1)).push(
            (o[o.len() - 1].0@, json_view(o[o.len() - 1].1)),
        )
    }
}

/// The models of a sequence of executable bodies.
pub open spec fn views_of(s: Seq<JsonValue>) -> Seq<JsonVal>
    decreases s
    via views_of_dec
{
    if s.len() == 0 {
        Seq::empty()
    } else {
        views_of(s.subrange(0, s.len() - 1)).push(json_view(s[s.len() - 1]))
    }
}

/// The model of an executable body.
pub open spec fn json_view(v: JsonValue) -> JsonVal
    decreases v
    via json_view_dec
{
    match v {
        JsonValue::Null => JsonVal::Null,
        JsonValue::Bool(b) => JsonVal::Bool(b),
        JsonValue::Int(i) => JsonVal::Int(i),
        JsonValue::Str(s) => JsonVal::Str(s@),
        JsonValue::Arr(a) => JsonVal::Arr(views_of(a@)),
        JsonValue::Obj(o) => JsonVal::Obj(entries_view(o@)),
    }
}

#[via_fn]
proof fn json_view_dec(v: JsonValue) {
    match v {
        JsonValue::Arr(a) => {
            assert(decreases_to!(v => v->Arr_0));
            assert(decreases_to!(v->Arr_0 => v->Arr_0@));
        },
        JsonValue::Obj(o) => {
            assert(decreases_to!(v => v->Obj_0));
            assert(decreases_to!(v->Obj_0 => v->Obj_0@));
        },
        _ => {},
    }
}

#[via_fn]
proof fn views_of_dec(s: Seq<JsonValue>) {
    if s.len() > 0 {
        assert(decreases_to!(s => s.subrange(0, s.len() - 1)));
        assert(decreases_to!(s => s[s.len() - 1]));
    }
}

#[via_fn]
proof fn entries_view_dec(o: Seq<(Vec<u8>, JsonValue)>) {
    if o.len() > 0 {
        assert(decreases_to!(o => o.subrange(0, o.len() - 1)));
        assert(decreases_to!(o => o[o.len() - 1]));
        assert(decreases_to!(o[o.len() - 1] => o[o.len() - 1].1));
    }
}

/// Pointwise description of `views_of`.
pub proof fn lemma_views_of(s: Seq<JsonValue>)
    ensures
        views_of(s).len() == s.len(),
        forall|i: int| 0 <= i < s.len() ==> views_of(s)[i] == json_view(s[i]),
    decreases s.len(),
{
    if s.len() > 0 {
        lemma_views_of(s.subrange(0, s.len() - 1));
    }
}

/// Pointwise description of `entries_view`.
pub proof fn lemma_entries_view(o: Seq<(Vec<u8>, JsonValue)>)
    ensures
        entries_view(o).len() == o.len(),
        forall|i: int|
            0 <= i < o.len() ==> entries_view(o)[i] == (o[i].0@, json_view(o[i].1)),
    decreases o.len(),
{
    if o.len() > 0 {
        lemma_entries_view(o.subrange(0, o.len() - 1));
    }
}

impl View for JsonValue {
    type V = JsonVal;

    open spec fn view(&self) -> JsonVal {
        json_view(*self)
    }
}

/// The value stored under the first entry with key `k`, if any.
pub open spec fn obj_lookup(o: Seq<(Seq<u8>, JsonVal)>, k: Seq<u8>) -> Option<JsonVal>
    decreases o.len(),
{
    if o.len() == 0 {
        None
    } else if o[0].0 == k {
        Some(o[0].1)
    } else {
        obj_lookup(o.subrange(1, o.len() as int), k)
    }
}

/// Whether an entry with key `k` exists.
pub open spec fn obj_has(o: Seq<(Seq<u8>, JsonVal)>, k: Seq<u8>) -> bool {
    obj_lookup(o, k) is Some
}

/// The merge of a new body over an old one: objects merge entry-wise with
/// the new side winning, anything else is replaced by the new value.
pub open spec fn merged(n: JsonVal, o: JsonVal) -> JsonVal
    decreases n,
{
    match n {
        JsonVal::Obj(ne) => match o {
            JsonVal::Obj(oe) => JsonVal::Obj(merged_entries(ne, oe) + residue(oe, ne)),
            _ => n,
        },
        _ => n,
    }
}

/// The entries of the new object, each merged over the old object's entry
/// of the same key where one exists.
pub open spec fn merged_entries(
    ne: Seq<(Seq<u8>, JsonVal)>,
    oe: Seq<(Seq<u8>, JsonVal)>,
) -> Seq<(Seq<u8>, JsonVal)>
    decreases ne,
{
    if ne.len() == 0 {
        Seq::empty()
    } else {
        let mv = match obj_lookup(oe, ne[0].0) {
            Some(ov) => merged(ne[0].1, ov),
            None => ne[0].1,
        };
        seq![(ne[0].0, mv)] + merged_entries(ne.subrange(1, ne.len() as int), oe)
    }
}

/// The entries of the old object whose keys the new object lacks.
pub open spec fn residue(
    oe: Seq<(Seq<u8>, JsonVal)>,
    ne: Seq<(Seq<u8>, JsonVal)>,
) -> Seq<(Seq<u8>, JsonVal)>
    decreases oe.len(),
{
    if oe.len() == 0 {
        Seq::empty()
    } else if obj_has(ne, oe[0].0) {
        residue(oe.subrange(1, oe.len() as int), ne)
    } else {
        seq![oe[0]] + residue(oe.subrange(1, oe.len() as int), ne)
    }
}

/// If no entry before position `i` has key `k` and the entry at `i` does,
/// the lookup returns that entry's value.
pub proof fn lemma_obj_lookup_at(o: Seq<(Seq<u8>, JsonVal)>, k: Seq<u8>, i: int)
    requires
        0 <= i < o.len(),
        forall|j: int| 0 <= j < i ==> o[j].0 != k,
        o[i].0 == k,
    ensures
        obj_lookup(o, k) == Some(o[i].1),
    decreases i,
{
    if i > 0 {
        lemma_obj_lookup_at(o.subrange(1, o.len() as int), k, i - 1);
    }
}

/// If no entry has key `k`, the lookup fails.
pub proof fn lemma_obj_lookup_none(o: Seq<(Seq<u8>, JsonVal)>, k: Seq<u8>)
    requires
        forall|j: int| 0 <= j < o.len() ==> o[j].0 != k,
    ensures
        obj_lookup(o, k) is None,
    decreases o.len(),
{
    if o.len() > 0 {
        lemma_obj_lookup_none(o.subrange(1, o.len() as int), k);
    }
}

/// Find the first entry with key `k`.
fn obj_find(o: &Vec<(Vec<u8>, JsonValue)>, k: &Vec<u8>) -> (r: Option<usize>)
    ensures
        match r {
            Some(i) => i < o.len() && o@[i as int].0@ == k@ && obj_lookup(entries_view(o@), k@)
                == Some(o@[i as int].1@),
            None => obj_lookup(entries_view(o@), k@) is None,
        },
{
    let mut i: usize = 0;
    while i < o.len()
        invariant
            i <= o.len(),
            forall|j: int| 0 <= j < i ==> entries_view(o@)[j].0 != k@,
        decreases o.len() - i,
    {
        proof {
            lemma_entries_view(o@);
        }
        if bytes_eq(&o[i].0, k) {
            proof {
                lemma_obj_lookup_at(entries_view(o@), k@, i as int);
            }
            return Some(i);
        }
        i = i + 1;
    }
    proof {
        lemma_entries_view(o@);
        lemma_obj_lookup_none(entries_view(o@), k@);
    }
    None
}

/// Deep copy of a body.
pub fn json_dup(v: &JsonValue) -> (r: JsonValue)
    ensures
        r@ == v@,
    decreases v,
{
    match v {
        JsonValue::Null => JsonValue::Null,
        JsonValue::Bool(b) => JsonValue::Bool(*b),
        JsonValue::Int(i) => JsonValue::Int(*i),
        JsonValue::Str(s) => JsonValue::Str(bytes_dup(s)),
        JsonValue::Arr(a) => {
            let mut out: Vec<JsonValue> = Vec::new();
            let mut i: usize = 0;
            while i < a.len()
                invariant
                    i <= a.len(),
                    *v is Arr,
                    a == v->Arr_0,
                    out@.len() == i,
                    forall|j: int| 0 <= j < i ==> out@[j]@ == a@[j]@,
                decreases a.len() - i,
            {
                proof {
                    assert(decreases_to!(*v => v->Arr_0));
                    assert(decreases_to!(v->Arr_0 => v->Arr_0@));
                    assert(decreases_to!(a@ => a@[i as int]));
                }
                let e = json_dup(&a[i]);
                out.push(e);
                i = i + 1;
            }
            proof {
                lemma_views_of(out@);
                lemma_views_of(a@);
                assert(views_of(out@) =~= views_of(a@));
            }
            JsonValue::Arr(out)
        },
        JsonValue::Obj(o) => {
            let mut out: Vec<(Vec<u8>, JsonValue)> = Vec::new();
            let mut i: usize = 0;
            while i < o.len()
                invariant
                    i <= o.len(),
                    *v is Obj,
                    o == v->Obj_0,
                    out@.len() == i,
                    forall|j: int| 0 <= j < i ==> out@[j].0@ == o@[j].0@ && out@[j].1@ == o@[j].1@,
                decreases o.len() - i,
            {
                proof {
                    assert(decreases_to!(*v => v->Obj_0));
                    assert(decreases_to!(v->Obj_0 => v->Obj_0@));
                    assert(decreases_to!(o@ => o@[i as int]));
                    assert(decreases_to!(o@[i as int] => o@[i as int].1));
                }
                let kk = bytes_dup(&o[i].0);
                let vv = json_dup(&o[i].1);
                out.push((kk, vv));
                i = i + 1;
            }
            proof {
                lemma_entries_view(out@);
                lemma_entries_view(o@);
                assert(entries_view(out@) =~= entries_view(o@));
            }
            JsonValue::Obj(out)
        },
    }
}

/// Merge the new body `n` over the old body `o`.
pub fn merge(n: &JsonValue, o: &JsonValue) -> (r: JsonValue)
    ensures
        r@ == merged(n@, o@),
    decreases n,
{
    match (n, o) {
        (JsonValue::Obj(ne), JsonValue::Obj(oe)) => {
            let ghost gne: Seq<(Seq<u8>, JsonVal)> = entries_view(ne@);
            let ghost goe: Seq<(Seq<u8>, JsonVal)> = entries_view(oe@);
            let mut out: Vec<(Vec<u8>, JsonValue)> = Vec::new();
            let mut i: usize = 0;
            proof {
                assert(gne.subrange(0, gne.len() as int) =~= gne);
                assert(entries_view(out@) + merged_entries(gne, goe) =~= merged_entries(
                    gne,
                    goe,
                ));
            }
            while i < ne.len()
                invariant
                    i <= ne.len(),
                    *n is Obj,
                    ne == n->Obj_0,
                    i <= gne.len(),
                    gne == entries_view(ne@),
                    goe == entries_view(oe@),
                    merged_entries(gne, goe) == entries_view(out@) + merged_entries(
                        gne.subrange(i as int, gne.len() as int),
                        goe,
                    ),
                decreases ne.len() - i,
            {
                proof {
                    lemma_entries_view(ne@);
                    lemma_entries_view(oe@);
                    assert(decreases_to!(*n => n->Obj_0));
                    assert(decreases_to!(n->Obj_0 => n->Obj_0@));
                    assert(decreases_to!(ne@ => ne@[i as int]));
                    assert(decreases_to!(ne@[i as int] => ne@[i as int].1));
                }
                let ghost suf = gne.subrange(i as int, gne.len() as int);
                proof {
                    assert(suf[0] == gne[i as int]);
                    assert(suf.subrange(1, suf.len() as int) =~= gne.subrange(
                        i + 1,
                        gne.len() as int,
                    ));
                }
                let mv = match obj_find(oe, &ne[i].0) {
                    Some(j) => merge(&ne[i].1, &oe[j].1),
                    None => json_dup(&ne[i].1),
                };
                let kk = bytes_dup(&ne[i].0);
                let ghost gkey = gne[i as int].0;
                let ghost gmv = mv@;
                let ghost out_pre = out@;
                out.push((kk, mv));
                proof {
                    lemma_entries_view(out@);
                    lemma_entries_view(out_pre);
                    assert(out@.subrange(0, out@.len() - 1) =~= out_pre);
                    assert(entries_view(out@) =~= entries_view(out_pre).push((gkey, gmv)));
                    assert(merged_entries(suf, goe) == seq![(gkey, gmv)] + merged_entries(
                        gne.subrange(i + 1, gne.len() as int),
                        goe,
                    ));
                    assert(entries_view(out_pre) + merged_entries(suf, goe) =~= entries_view(out@)
                        + merged_entries(gne.subrange(i + 1, gne.len() as int), goe));
                }
                i = i + 1;
            }
            proof {
                lemma_entries_view(ne@);
                lemma_entries_view(oe@);
                assert(gne.subrange(i as int, gne.len() as int) =~= Seq::<
                    (Seq<u8>, JsonVal),
                >::empty());
                assert(entries_view(out@) + merged_entries(
                    gne.subrange(i as int, gne.len() as int),
                    goe,
                ) =~= entries_view(out@));
                assert(goe.subrange(0, 0) =~= Seq::<(Seq<u8>, JsonVal)>::empty());
                assert(merged_entries(gne, goe) + residue(goe.subrange(0, 0), gne)
                    =~= merged_entries(gne, goe));
            }
            let mut j: usize = 0;
            while j < oe.len()
                invariant
                    j <= oe.len(),
                    *n is Obj,
                    ne == n->Obj_0,
                    *o is Obj,
                    oe == o->Obj_0,
                    j <= goe.len(),
                    gne == entries_view(ne@),
                    goe == entries_view(oe@),
                    entries_view(out@) == merged_entries(gne, goe) + residue(
                        goe.subrange(0, j as int),
                        gne,
                    ),
                decreases oe.len() - j,
            {
                proof {
                    lemma_entries_view(ne@);
                    lemma_entries_view(oe@);
                }
                let ghost out_pre = out@;
                match obj_find(ne, &oe[j].0) {
                    Some(_) => {
                        proof {
                            lemma_residue_push(goe, gne, j as int);
                        }
                    },
                    None => {
                        let kk = bytes_dup(&oe[j].0);
                        let vv = json_dup(&oe[j].1);
                        out.push((kk, vv));
                        proof {
                            lemma_residue_push(goe, gne, j as int);
                            lemma_entries_view(out@);
                            lemma_entries_view(out_pre);
                            assert(out@.subrange(0, out@.len() - 1) =~= out_pre);
                            assert(entries_view(out@) =~= entries_view(out_pre).push(
                                (goe[j as int].0, goe[j as int].1),
                            ));
                        }
                    },
                }
                proof {
                    assert(entries_view(out@) =~= merged_entries(gne, goe) + residue(
                        goe.subrange(0, j + 1),
                        gne,
                    ));
                }
                j = j + 1;
            }
            proof {
                lemma_entries_view(oe@);
                assert(goe.subrange(0, j as int) =~= goe);
            }
            JsonValue::Obj(out)
        },
        _ => {
            let r = json_dup(n);
            proof {
                assert(merged(n@, o@) == n@);
            }
            r
        },
    }
}

/// Extending the prefix of the old entries by one extends its residue by
/// that entry exactly when the new object lacks its key.
proof fn lemma_residue_push(oe: Seq<(Seq<u8>, JsonVal)>, ne: Seq<(Seq<u8>, JsonVal)>, j: int)
    requires
        0 <= j < oe.len(),
    ensures
        residue(oe.subrange(0, j + 1), ne) == if obj_has(ne, oe[j].0) {
            residue(oe.subrange(0, j), ne)
        } else {
            residue(oe.subrange(0, j), ne).push(oe[j])
        },
    decreases j,
{
    let pre = oe.subrange(0, j);
    let ext = oe.subrange(0, j + 1);
    if j == 0 {
        assert(ext.subrange(1, ext.len() as int) =~= Seq::<(Seq<u8>, JsonVal)>::empty());
        assert(pre =~= Seq::<(Seq<u8>, JsonVal)>::empty());
        if !obj_has(ne, oe[0].0) {
            assert(seq![oe[0]] + residue(ext.subrange(1, ext.len() as int), ne) =~= residue(
                pre,
                ne,
            ).push(oe[0]));
        }
    } else {
        let tail = oe.subrange(1, oe.len() as int);
        lemma_residue_push(tail, ne, j - 1);
        assert(ext.subrange(1, ext.len() as int) =~= tail.subrange(0, j));
        assert(pre.subrange(1, pre.len() as int) =~= tail.subrange(0, j - 1));
        assert(tail[j - 1] == oe[j]);
        assert(ext[0] == oe[0]);
        assert(pre[0] == oe[0]);
        if obj_has(ne, ext[0].0) {
            assert(residue(ext, ne) == residue(tail.subrange(0, j), ne));
            assert(residue(pre, ne) == residue(tail.subrange(0, j - 1), ne));
        } else {
            assert(residue(ext, ne) == seq![oe[0]] + residue(tail.subrange(0, j), ne));
            assert(residue(pre, ne) == seq![oe[0]] + residue(tail.subrange(0, j - 1), ne));
            if !obj_has(ne, oe[j].0) {
                assert(seq![oe[0]] + residue(tail.subrange(0, j - 1), ne).push(oe[j]) =~= (
                seq![oe[0]] + residue(tail.subrange(0, j - 1), ne)).push(oe[j]));
            }
        }
    }
}

/// A lookup in a concatenation reads the left side first.
proof fn lemma_lookup_concat(a: Seq<(Seq<u8>, JsonVal)>, b: Seq<(Seq<u8>, JsonVal)>, k: Seq<u8>)
    ensures
        obj_lookup(a + b, k) == if obj_has(a, k) {
            obj_lookup(a, k)
        } else {
            obj_lookup(b, k)
        },
    decreases a.len(),
{
    if a.len() == 0 {
        assert(a + b =~= b);
    } else {
        assert((a + b)[0] == a[0]);
        assert((a + b).subrange(1, (a + b).len() as int) =~= a.subrange(1, a.len() as int) + b);
        lemma_lookup_concat(a.subrange(1, a.len() as int), b, k);
    }
}

/// A lookup among the merged entries finds the new object's first value
/// for the key, merged over the old object's value where one exists.
proof fn lemma_lookup_merged_entries(
    ne: Seq<(Seq<u8>, JsonVal)>,
    oe: Seq<(Seq<u8>, JsonVal)>,
    k: Seq<u8>,
)
    ensures
        obj_lookup(merged_entries(ne, oe), k) == match obj_lookup(ne, k) {
            Some(nv) => Some(
                match obj_lookup(oe, k) {
                    Some(ov) => merged(nv, ov),
                    None => nv,
                },
            ),
            None => None::<JsonVal>,
        },
    decreases ne.len(),
{
    if ne.len() > 0 {
        let tail = ne.subrange(1, ne.len() as int);
        lemma_lookup_merged_entries(tail, oe, k);
        let me = merged_entries(ne, oe);
        assert(me[0] == (seq![(ne[0].0, match obj_lookup(oe, ne[0].0) {
            Some(ov) => merged(ne[0].1, ov),
            None => ne[0].1,
        })] + merged_entries(tail, oe))[0]);
        assert(me.subrange(1, me.len() as int) =~= merged_entries(tail, oe));
    }
}

/// A lookup in the residue, for a key the new object lacks, finds the old
/// object's first value for the key.
proof fn lemma_lookup_residue(
    oe: Seq<(Seq<u8>, JsonVal)>,
    ne: Seq<(Seq<u8>, JsonVal)>,
    k: Seq<u8>,
)
    requires
        !obj_has(ne, k),
    ensures
        obj_lookup(residue(oe, ne), k) == obj_lookup(oe, k),
    decreases oe.len(),
{
    if oe.len() > 0 {
        let tail = oe.subrange(1, oe.len() as int);
        lemma_lookup_residue(tail, ne, k);
        if !obj_has(ne, oe[0].0) {
            let re = residue(oe, ne);
            assert(re[0] == (seq![oe[0]] + residue(tail, ne))[0]);
            assert(re.subrange(1, re.len() as int) =~= residue(tail, ne));
        } else {
            assert(oe[0].0 != k);
        }
    }
}

/// Key precedence of the merge of two objects: a key of the new object
/// keeps the new value, merged over the old one where both sides hold it;
/// a key only the old object holds keeps the old value; no other key
/// appears.
pub proof fn lemma_merge_precedence(
    ne: Seq<(Seq<u8>, JsonVal)>,
    oe: Seq<(Seq<u8>, JsonVal)>,
    k: Seq<u8>,
)
    ensures
        merged(JsonVal::Obj(ne), JsonVal::Obj(oe)) is Obj,
        obj_lookup(merged(JsonVal::Obj(ne), JsonVal::Obj(oe))->Obj_0, k) == match obj_lookup(
            ne,
            k,
        ) {
            Some(nv) => Some(
                match obj_lookup(oe, k) {
                    Some(ov) => merged(nv, ov),
                    None => nv,
                },
            ),
            None => obj_lookup(oe, k),
        },
{
    lemma_lookup_merged_entries(ne, oe, k);
    lemma_lookup_concat(merged_entries(ne, oe), residue(oe, ne), k);
    if !obj_has(ne, k) {
        lemma_lookup_residue(oe, ne, k);
    }
}

/// Merging two objects with disjoint top-level keys concatenates their
/// entries: every key of either side keeps the value it brought.
pub proof fn lemma_merge_disjoint(ne: Seq<(Seq<u8>, JsonVal)>, oe: Seq<(Seq<u8>, JsonVal)>)
    requires
        forall|i: int, j: int|
            0 <= i < ne.len() && 0 <= j < oe.len() ==> ne[i].0 != oe[j].0,
    ensures
        merged(JsonVal::Obj(ne), JsonVal::Obj(oe)) == JsonVal::Obj(ne + oe),
{
    lemma_merged_entries_disjoint(ne, oe);
    lemma_residue_disjoint(oe, ne);
    assert(merged_entries(ne, oe) + residue(oe, ne) =~= ne + oe);
}

/// When the old object shares no key with the new entries, merging leaves
/// the new entries unchanged.
proof fn lemma_merged_entries_disjoint(ne: Seq<(Seq<u8>, JsonVal)>, oe: Seq<(Seq<u8>, JsonVal)>)
    requires
        forall|i: int, j: int|
            0 <= i < ne.len() && 0 <= j < oe.len() ==> ne[i].0 != oe[j].0,
    ensures
        merged_entries(ne, oe) == ne,
    decreases ne.len(),
{
    if ne.len() > 0 {
        lemma_obj_lookup_none(oe, ne[0].0);
        lemma_merged_entries_disjoint(ne.subrange(1, ne.len() as int), oe);
        assert(merged_entries(ne, oe) =~= ne);
    }
}

/// When the new object shares no key with the old entries, the residue is
/// the old entries themselves.
proof fn lemma_residue_disjoint(oe: Seq<(Seq<u8>, JsonVal)>, ne: Seq<(Seq<u8>, JsonVal)>)
    requires
        forall|i: int, j: int|
            0 <= i < oe.len() && 0 <= j < ne.len() ==> oe[i].0 != ne[j].0,
    ensures
        residue(oe, ne) == oe,
    decreases oe.len(),
{
    if oe.len() > 0 {
        lemma_obj_lookup_none(ne, oe[0].0);
        lemma_residue_disjoint(oe.subrange(1, oe.len() as int), ne);
        assert(residue(oe, ne) =~= oe);
    }
}

impl JsonValue {
    /// Borrow the value stored under top-level key `k`, if this body is an
    /// object holding that key.
    pub fn top_get<'a>(&'a self, k: &Vec<u8>) -> (r: Option<&'a JsonValue>)
        ensures
            match r {
                Some(w) => self@ is Obj && obj_lookup(self@->Obj_0, k@) == Some(w@),
                None => self@ is Obj ==> obj_lookup(self@->Obj_0, k@) is None,
            },
    {
        match self {
            JsonValue::Obj(o) => match obj_find(o, k) {
                Some(i) => Some(&o[i].1),
                None => None,
            },
            _ => None,
        }
    }
}

} // verus!
