//! Documents, write modes, internal-id coding, and the engine's error
//! taxonomy.

use vstd::prelude::*;

use crate::json::json_dup;
use crate::json::JsonVal;
use crate::json::JsonValue;

verus! {

/// Stable error codes surfaced to callers.
pub const CODE_SUCCESS: u32 = 0;

pub const CODE_NOT_FOUND: u32 = 1;

pub const CODE_ALREADY_EXISTS: u32 = 2;

pub const CODE_VERSION_ERR: u32 = 3;

pub const CODE_ENGINE_NOT_WRITABLE: u32 = 4;

pub const CODE_INTERNAL: u32 = 5;

/// Client-visible logical errors of the engine.
#[derive(Clone, Copy, Debug, PartialEq, Eq, Structural)]
pub enum EngineError {
    NotFound,
    AlreadyExists,
    VersionMismatch,
    EngineNotWritable,
    Internal,
}

impl EngineError {
    /// The stable numeric code of this error.
    pub fn code(&self) -> (c: u32)
        ensures
            c == self.code_spec(),
    {
        match self {
            EngineError::NotFound => CODE_NOT_FOUND,
            EngineError::AlreadyExists => CODE_ALREADY_EXISTS,
            EngineError::VersionMismatch => CODE_VERSION_ERR,
            EngineError::EngineNotWritable => CODE_ENGINE_NOT_WRITABLE,
            EngineError::Internal => CODE_INTERNAL,
        }
    }

    pub open spec fn code_spec(&self) -> u32 {
        match self {
            EngineError::NotFound => CODE_NOT_FOUND,
            EngineError::AlreadyExists => CODE_ALREADY_EXISTS,
            EngineError::VersionMismatch => CODE_VERSION_ERR,
            EngineError::EngineNotWritable => CODE_ENGINE_NOT_WRITABLE,
            EngineError::Internal => CODE_INTERNAL,
        }
    }
}

/// Byte-string equality, element by element.
pub fn bytes_eq(a: &Vec<u8>, b: &Vec<u8>) -> (r: bool)
    ensures
        r <==> a@ == b@,
{
    if a.len() != b.len() {
        return false;
    }
    let mut i: usize = 0;
    while i < a.len()
        invariant
            i <= a.len(),
            a.len() == b.len(),
            forall|j: int| 0 <= j < i ==> a@[j] == b@[j],
        decreases a.len() - i,
    {
        if a[i] != b[i] {
            return false;
        }
        i = i + 1;
    }
    proof {
        assert(a@ =~= b@);
    }
    true
}

/// Copy a byte string.
pub fn bytes_dup(a: &Vec<u8>) -> (r: Vec<u8>)
    ensures
        r@ == a@,
{
    let mut out: Vec<u8> = Vec::new();
    let mut i: usize = 0;
    while i < a.len()
        invariant
            i <= a.len(),
            out@ == a@.subrange(0, i as int),
        decreases a.len() - i,
    {
        out.push(a[i]);
        assert(out@ =~= a@.subrange(0, i + 1 as int));
        i = i + 1;
    }
    proof {
        assert(a@.subrange(0, a@.len() as int) =~= a@);
    }
    out
}

/// The four little-endian bytes of a 32-bit integer.
pub open spec fn le32(n: u32) -> Seq<u8> {
    seq![
        (n & 0xff) as u8,
        ((n >> 8) & 0xff) as u8,
        ((n >> 16) & 0xff) as u8,
        ((n >> 24) & 0xff) as u8,
    ]
}

/// The internal id derived from `(id, sort_key)`: the id, prefixed with
/// its length, followed by the sort key. Distinct pairs give distinct ids.
pub open spec fn iid_of(id: Seq<u8>, sort_key: Seq<u8>) -> Seq<u8> {
    le32(id.len() as u32) + id + sort_key
}

/// Compute the internal id of a `(id, sort_key)` pair.
pub fn id_coding(id: &Vec<u8>, sort_key: &Vec<u8>) -> (r: Vec<u8>)
    requires
        id@.len() <= u32::MAX,
    ensures
        r@ == iid_of(id@, sort_key@),
{
    let n = id.len() as u32;
    let mut out: Vec<u8> = Vec::new();
    out.push((n & 0xff) as u8);
    out.push(((n >> 8) & 0xff) as u8);
    out.push(((n >> 16) & 0xff) as u8);
    out.push(((n >> 24) & 0xff) as u8);
    let mut i: usize = 0;
    while i < id.len()
        invariant
            i <= id.len(),
            n == id@.len() as u32,
            out@ == le32(n) + id@.subrange(0, i as int),
        decreases id.len() - i,
    {
        out.push(id[i]);
        assert(out@ =~= le32(n) + id@.subrange(0, i + 1 as int));
        i = i + 1;
    }
    let mut j: usize = 0;
    while j < sort_key.len()
        invariant
            j <= sort_key.len(),
            n == id@.len() as u32,
            out@ == le32(n) + id@.subrange(0, id@.len() as int) + sort_key@.subrange(0, j as int),
        decreases sort_key.len() - j,
    {
        out.push(sort_key[j]);
        assert(out@ =~= le32(n) + id@.subrange(0, id@.len() as int) + sort_key@.subrange(
            0,
            j + 1 as int,
        ));
        j = j + 1;
    }
    proof {
        assert(id@.subrange(0, id@.len() as int) =~= id@);
        assert(sort_key@.subrange(0, sort_key@.len() as int) =~= sort_key@);
        assert(out@ =~= iid_of(id@, sort_key@));
    }
    out
}

/// Two equal little-endian encodings come from one integer.
proof fn lemma_le32_injective(x: u32, y: u32)
    requires
        le32(x) == le32(y),
    ensures
        x == y,
{
    assert(le32(x)[0] == le32(y)[0]);
    assert(le32(x)[1] == le32(y)[1]);
    assert(le32(x)[2] == le32(y)[2]);
    assert(le32(x)[3] == le32(y)[3]);
    assert((x & 0xff) as u8 == (y & 0xff) as u8 && ((x >> 8) & 0xff) as u8 == ((y >> 8)
        & 0xff) as u8 && ((x >> 16) & 0xff) as u8 == ((y >> 16) & 0xff) as u8 && ((x >> 24)
        & 0xff) as u8 == ((y >> 24) & 0xff) as u8 ==> x == y) by (bit_vector);
}

/// Internal ids collide only for identical `(id, sort_key)` pairs.
pub proof fn lemma_iid_injective(id1: Seq<u8>, sk1: Seq<u8>, id2: Seq<u8>, sk2: Seq<u8>)
    requires
        id1.len() <= u32::MAX,
        id2.len() <= u32::MAX,
        iid_of(id1, sk1) == iid_of(id2, sk2),
    ensures
        id1 == id2,
        sk1 == sk2,
{
    let a = iid_of(id1, sk1);
    let b = iid_of(id2, sk2);
    let s1 = le32(id1.len() as u32);
    let s2 = le32(id2.len() as u32);
    assert(a[0] == s1[0] && a[1] == s1[1] && a[2] == s1[2] && a[3] == s1[3]);
    assert(b[0] == s2[0] && b[1] == s2[1] && b[2] == s2[2] && b[3] == s2[3]);
    assert(s1 =~= s2);
    lemma_le32_injective(id1.len() as u32, id2.len() as u32);
    assert(id1.len() == id2.len());
    assert(a.len() == 4 + id1.len() + sk1.len());
    assert(b.len() == 4 + id2.len() + sk2.len());
    assert(sk1.len() == sk2.len());
    assert forall|i: int| 0 <= i < id1.len() implies id1[i] == id2[i] by {
        assert(a[4 + i] == id1[i]);
        assert(b[4 + i] == id2[i]);
    }
    assert(id1 =~= id2);
    assert forall|i: int| 0 <= i < sk1.len() implies sk1[i] == sk2[i] by {
        assert(a[4 + id1.len() + i] == sk1[i]);
        assert(b[4 + id2.len() + i] == sk2[i]);
    }
    assert(sk1 =~= sk2);
}

/// The model of a document.
#[verifier::ext_equal]
pub struct DocView {
    pub id: Seq<u8>,
    pub sort_key: Seq<u8>,
    pub slot: u32,
    pub version: u64,
    pub source: JsonVal,
}

/// The domain entity: a caller-chosen primary id and sort key, a routing
/// slot, a monotonic per-document version, and a structured body.
#[derive(Debug, PartialEq, Eq)]
pub struct Document {
    pub id: Vec<u8>,
    pub sort_key: Vec<u8>,
    pub slot: u32,
    pub version: u64,
    pub source: JsonValue,
}

impl View for Document {
    type V = DocView;

    open spec fn view(&self) -> DocView {
        DocView {
            id: self.id@,
            sort_key: self.sort_key@,
            slot: self.slot,
            version: self.version,
            source: self.source@,
        }
    }
}

/// A document whose id and sort key fit the internal-id coding.
pub open spec fn key_fits(d: DocView) -> bool {
    d.id.len() <= u32::MAX && d.sort_key.len() <= u32::MAX
}

impl Document {
    /// Deep copy.
    pub fn dup(&self) -> (r: Document)
        ensures
            r@ == self@,
    {
        Document {
            id: bytes_dup(&self.id),
            sort_key: bytes_dup(&self.sort_key),
            slot: self.slot,
            version: self.version,
            source: json_dup(&self.source),
        }
    }

    /// The internal id of this document.
    pub fn iid(&self) -> (r: Vec<u8>)
        requires
            key_fits(self@),
        ensures
            r@ == iid_of(self@.id, self@.sort_key),
    {
        id_coding(&self.id, &self.sort_key)
    }
}

/// The write modes of the engine.
#[derive(Clone, Copy, Debug, PartialEq, Eq, Structural)]
pub enum WriteType {
    Overwrite,
    Create,
    Update,
    Upsert,
    Delete,
}

/// A write request: the document to apply and the mode to apply it under.
pub struct WriteDocumentRequest {
    pub doc: Option<Document>,
    pub write_type: WriteType,
}

} // verus!
