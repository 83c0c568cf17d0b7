//! The binary index file: an 8-byte magic, the reference count (u32, little
//! endian), the number of dimensions (u8), every quantized vector value (u16,
//! little endian, reference after reference) and one label byte per reference.

use vstd::prelude::*;
use crate::dataset::{Dataset, DIMS};

verus! {

/// Length of the header: magic, reference count and dimension count.
pub const HEADER_LEN: usize = 13;

/// The magic that opens an index file: "RINHAI01" in ASCII.
pub open spec fn spec_index_magic() -> Seq<u8> {
    seq![82u8, 73u8, 78u8, 72u8, 65u8, 73u8, 48u8, 49u8]
}

/// Why bytes are not an index file.
#[derive(Clone, Copy, Debug, PartialEq, Eq)]
pub enum IndexError {
    /// The bytes end before the part they announce.
    Truncated,
    /// The bytes do not open with the index magic.
    InvalidMagic,
    /// The file holds vectors of another dimension (the value it names).
    InvalidDims(u8),
}

pub open spec fn le_u16(b: Seq<u8>, off: int) -> u16 {
    (b[off] + 256 * b[off + 1]) as u16
}

pub open spec fn le_u32(b: Seq<u8>, off: int) -> int {
    b[off] + 256 * b[off + 1] + 65536 * b[off + 2] + 16777216 * b[off + 3]
}

/// Number of bytes of an index holding `n` references.
pub open spec fn index_len(n: int) -> int {
    HEADER_LEN + n * (2 * DIMS + 1)
}

/// The vector values stored in an index with `n` references.
pub open spec fn stored_vectors(b: Seq<u8>, n: int) -> Seq<u16> {
    Seq::new((n * DIMS) as nat, |i: int| le_u16(b, HEADER_LEN + 2 * i))
}

/// The labels stored in an index with `n` references.
pub open spec fn stored_labels(b: Seq<u8>, n: int) -> Seq<u8> {
    b.subrange(HEADER_LEN + 2 * (n * DIMS), HEADER_LEN + 2 * (n * DIMS) + n)
}

/// What reading an index from `b` gives: an error, or the reference count,
/// vectors and labels (bytes after the labels are ignored).
pub open spec fn spec_parse_index(b: Seq<u8>) -> Result<(int, Seq<u16>, Seq<u8>), IndexError> {
    if b.len() < 8 {
        Err(IndexError::Truncated)
    } else if b.take(8) != spec_index_magic() {
        Err(IndexError::InvalidMagic)
    } else if b.len() < HEADER_LEN {
        Err(IndexError::Truncated)
    } else if b[12] != DIMS {
        Err(IndexError::InvalidDims(b[12]))
    } else if b.len() < index_len(le_u32(b, 8)) {
        Err(IndexError::Truncated)
    } else {
        let n = le_u32(b, 8);
        Ok((n, stored_vectors(b, n), stored_labels(b, n)))
    }
}

fn has_index_magic(bytes: &[u8]) -> (r: bool)
    requires
        bytes@.len() >= 8,
    ensures
        r == (bytes@.take(8) == spec_index_magic()),
{
    let r = bytes[0] == 82 && bytes[1] == 73 && bytes[2] == 78 && bytes[3] == 72 && bytes[4] == 65
        && bytes[5] == 73 && bytes[6] == 48 && bytes[7] == 49;
    proof {
        if r {
            assert(bytes@.take(8) =~= spec_index_magic());
        } else {
            if bytes@.take(8) == spec_index_magic() {
                assert(bytes@.take(8)[0] == 82u8);
                assert(bytes@.take(8)[1] == 73u8);
                assert(bytes@.take(8)[2] == 78u8);
                assert(bytes@.take(8)[3] == 72u8);
                assert(bytes@.take(8)[4] == 65u8);
                assert(bytes@.take(8)[5] == 73u8);
                assert(bytes@.take(8)[6] == 48u8);
                assert(bytes@.take(8)[7] == 49u8);
            }
        }
    }
    r
}

fn read_u16_le(bytes: &[u8], off: usize) -> (v: u16)
    requires
        off + 2 <= bytes@.len(),
    ensures
        v == le_u16(bytes@, off as int),
{
    bytes[off] as u16 + 256 * (bytes[off + 1] as u16)
}

fn read_u32_le(bytes: &[u8], off: usize) -> (v: u32)
    requires
        off + 4 <= bytes@.len(),
    ensures
        v == le_u32(bytes@, off as int),
{
    bytes[off] as u32 + 256 * (bytes[off + 1] as u32) + 65536 * (bytes[off + 2] as u32) + 16777216
        * (bytes[off + 3] as u32)
}

impl Dataset {
    /// Reads the bytes of an index file and builds the dataset it describes.
    pub fn load_index(bytes: &[u8]) -> (r: Result<Dataset, IndexError>)
        ensures
            match (r, spec_parse_index(bytes@)) {
                (Ok(ds), Ok((n, vectors, labels))) => {
                    &&& ds.is_indexed()
                    &&& ds.len == n
                    &&& ds.vectors@ == vectors
                    &&& ds.labels@ == labels
                },
                (Err(e), Err(f)) => e == f,
                _ => false,
            },
    {
        if bytes.len() < 8 {
            return Err(IndexError::Truncated);
        }
        if !has_index_magic(bytes) {
            return Err(IndexError::InvalidMagic);
        }
        if bytes.len() < HEADER_LEN {
            return Err(IndexError::Truncated);
        }
        let len = read_u32_le(bytes, 8);
        let dims = bytes[12];
        if dims as usize != DIMS {
            return Err(IndexError::InvalidDims(dims));
        }
        let per_reference: u64 = 2 * (DIMS as u64) + 1;
        assert(per_reference == 29);
        let needed: u64 = HEADER_LEN as u64 + (len as u64) * per_reference;
        if (bytes.len() as u64) < needed {
            return Err(IndexError::Truncated);
        }
        let len = len as usize;
        let vector_values = len * DIMS;
        let labels_start = HEADER_LEN + 2 * vector_values;
        let mut vectors: Vec<u16> = Vec::new();
        let mut i: usize = 0;
        while i < vector_values
            invariant
                vector_values == len * DIMS,
                labels_start == HEADER_LEN + 2 * vector_values,
                labels_start + len <= bytes@.len(),
                i <= vector_values,
                vectors@ =~= stored_vectors(bytes@, len as int).take(i as int),
            decreases vector_values - i,
        {
            let v = read_u16_le(bytes, HEADER_LEN + 2 * i);
            vectors.push(v);
            i = i + 1;
        }
        let blen = bytes.len();
        let mut labels: Vec<u8> = Vec::new();
        let mut j: usize = 0;
        while j < len
            invariant
                blen == bytes@.len(),
                labels_start == HEADER_LEN + 2 * (len * DIMS),
                labels_start + len <= bytes@.len(),
                j <= len,
                labels@ =~= stored_labels(bytes@, len as int).take(j as int),
            decreases len - j,
        {
            labels.push(bytes[labels_start + j]);
            j = j + 1;
        }
        proof {
            assert(vectors@ =~= stored_vectors(bytes@, len as int));
            assert(labels@ =~= stored_labels(bytes@, len as int));
        }
        Ok(Dataset::from_references(vectors, labels))
    }
}

} // verus!

verus! {

/// Little-endian bytes of the vector values, two per value.
pub open spec fn vector_bytes(v: Seq<u16>) -> Seq<u8> {
    Seq::new(
        2 * v.len(),
        |i: int| if i % 2 == 0 { (v[i / 2] % 256) as u8 } else { (v[i / 2] / 256) as u8 },
    )
}

/// Little-endian bytes of a reference count.
pub open spec fn count_bytes(n: int) -> Seq<u8> {
    seq![(n % 256) as u8, ((n / 256) % 256) as u8, ((n / 65536) % 256) as u8, (n / 16777216) as u8]
}

/// The index file holding the given vectors and labels.
pub open spec fn spec_encode_index(vectors: Seq<u16>, labels: Seq<u8>) -> Seq<u8> {
    spec_index_magic() + count_bytes(labels.len() as int) + seq![DIMS as u8] + vector_bytes(
        vectors,
    ) + labels
}

/// Writes the index file of `labels.len()` references whose vectors are stored
/// row after row in `vectors`.
pub fn encode_index(vectors: &[u16], labels: &[u8]) -> (bytes: Vec<u8>)
    requires
        vectors@.len() == labels@.len() * DIMS,
        labels@.len() <= u32::MAX,
    ensures
        bytes@ == spec_encode_index(vectors@, labels@),
{
    let n = labels.len() as u32;
    let mut out: Vec<u8> = Vec::new();
    out.push(82);
    out.push(73);
    out.push(78);
    out.push(72);
    out.push(65);
    out.push(73);
    out.push(48);
    out.push(49);
    out.push((n % 256) as u8);
    out.push(((n / 256) % 256) as u8);
    out.push(((n / 65536) % 256) as u8);
    out.push((n / 16777216) as u8);
    out.push(DIMS as u8);
    let ghost header = spec_index_magic() + count_bytes(labels@.len() as int) + seq![DIMS as u8];
    assert(out@ =~= header);
    let mut i: usize = 0;
    while i < vectors.len()
        invariant
            i <= vectors@.len(),
            out@ =~= header + vector_bytes(vectors@.take(i as int)),
        decreases vectors@.len() - i,
    {
        let v = vectors[i];
        out.push((v % 256) as u8);
        out.push((v / 256) as u8);
        assert(vector_bytes(vectors@.take(i + 1)) =~= vector_bytes(vectors@.take(i as int)).push(
            (v % 256) as u8,
        ).push((v / 256) as u8));
        i = i + 1;
    }
    assert(vectors@.take(i as int) =~= vectors@);
    let mut j: usize = 0;
    while j < labels.len()
        invariant
            j <= labels@.len(),
            out@ =~= header + vector_bytes(vectors@) + labels@.take(j as int),
        decreases labels@.len() - j,
    {
        out.push(labels[j]);
        assert(labels@.take(j + 1) =~= labels@.take(j as int).push(labels@[j as int]));
        j = j + 1;
    }
    assert(labels@.take(j as int) =~= labels@);
    out
}

/// Reading back a written index gives the vectors and labels that were written.
pub proof fn lemma_index_roundtrip(vectors: Seq<u16>, labels: Seq<u8>)
    requires
        vectors.len() == labels.len() * DIMS,
        labels.len() <= u32::MAX,
    ensures
        spec_parse_index(spec_encode_index(vectors, labels)) == Ok::<
            (int, Seq<u16>, Seq<u8>),
            IndexError,
        >((labels.len() as int, vectors, labels)),
{
    let b = spec_encode_index(vectors, labels);
    let n = labels.len() as int;
    let vb = vector_bytes(vectors);
    assert(b.take(8) =~= spec_index_magic());
    assert(b[12] == DIMS as u8);
    assert(b[8] == (n % 256) as u8);
    assert(b[9] == ((n / 256) % 256) as u8);
    assert(b[10] == ((n / 65536) % 256) as u8);
    assert(b[11] == (n / 16777216) as u8);
    assert(le_u32(b, 8) == n) by (nonlinear_arith)
        requires
            0 <= n <= u32::MAX,
            b[8] == (n % 256) as u8,
            b[9] == ((n / 256) % 256) as u8,
            b[10] == ((n / 65536) % 256) as u8,
            b[11] == (n / 16777216) as u8,
            le_u32(b, 8) == b[8] + 256 * b[9] + 65536 * b[10] + 16777216 * b[11],
    ;
    assert(vb.len() == 2 * vectors.len());
    assert(count_bytes(n).len() == 4);
    assert(b.len() == 8 + 4 + 1 + vb.len() + n);
    assert(b.len() == index_len(n)) by (nonlinear_arith)
        requires
            b.len() == 8 + 4 + 1 + vb.len() + n,
            vb.len() == 2 * vectors.len(),
            vectors.len() == n * 14,
            index_len(n) == 13 + n * 29,
    ;
    assert forall|i: int| 0 <= i < vectors.len() implies #[trigger] le_u16(b, HEADER_LEN + 2 * i)
        == vectors[i] by {
        let x = vectors[i];
        assert(b[HEADER_LEN + 2 * i] == vb[2 * i]);
        assert(b[HEADER_LEN + 2 * i + 1] == vb[2 * i + 1]);
        assert((2 * i) % 2 == 0 && (2 * i) / 2 == i && (2 * i + 1) % 2 == 1 && (2 * i + 1) / 2 == i);
        assert(vb[2 * i] == (x % 256) as u8 && vb[2 * i + 1] == (x / 256) as u8);
        assert((x % 256) as u8 + 256 * ((x / 256) as u8) == x) by (nonlinear_arith)
            requires 0 <= x <= 65535;
    }
    assert(stored_vectors(b, n) =~= vectors);
    assert(stored_labels(b, n) =~= labels);
}

} // verus!

verus! {

/// Label byte stored for a reference: 1 for "fraud", 0 for anything else.
pub fn label_code(label: &str) -> (code: u8)
    ensures
        code == (if label@ == "fraud"@ { 1u8 } else { 0u8 }),
{
    if label.to_owned() == "fraud".to_owned() {
        1
    } else {
        0
    }
}

} // verus!
