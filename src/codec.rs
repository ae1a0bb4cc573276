//! The binary triangle-file format: an 80-byte header, a little-endian `u32`
//! triangle count, then per triangle a normal, three vertices (each as three
//! 32-bit floats) and two attribute bytes.
//!
//! Coordinates travel as the bit patterns of their 32-bit floats, so what is
//! written is read back bit for bit.
use vstd::prelude::*;

verus! {

/// The bit patterns of a triangle's three vertices, three coordinates each.
pub type RawTriangle = [[u32; 3]; 3];

pub const HEADER_LEN: usize = 80;

/// Why a byte sequence is not a triangle file.
#[derive(Clone, Copy, Debug, PartialEq, Eq, Structural)]
pub enum StlError {
    /// The bytes end before the header and the triangle count.
    MissingHeader,
    /// The bytes end before the last triangle record that the count announces.
    Truncated,
}

/// Byte `b` (0 for the least significant) of a word.
pub open spec fn byte_of(w: u32, b: int) -> u8 {
    if b == 0 {
        (w % 256) as u8
    } else if b == 1 {
        ((w / 256) % 256) as u8
    } else if b == 2 {
        ((w / 65536) % 256) as u8
    } else {
        (w / 16777216) as u8
    }
}

/// The little-endian word stored at `at`.
pub open spec fn word_at(b: Seq<u8>, at: int) -> int {
    b[at] + 256 * b[at + 1] + 65536 * b[at + 2] + 16777216 * b[at + 3]
}

pub open spec fn raw_view(t: RawTriangle) -> Seq<Seq<u32>> {
    t@.map_values(|v: [u32; 3]| v@)
}

/// Byte `o` of the record of a triangle with vertex words `t` and normal `n`.
pub open spec fn record_byte(t: Seq<Seq<u32>>, n: Seq<u32>, o: int) -> u8 {
    if o < 12 {
        byte_of(n[o / 4], o % 4)
    } else if o < 48 {
        byte_of(t[(o - 12) / 12][((o - 12) % 12) / 4], o % 4)
    } else {
        0
    }
}

/// Byte `p` of the file holding triangles `ts` with normals `ns`.
pub open spec fn file_byte(ts: Seq<Seq<Seq<u32>>>, ns: Seq<Seq<u32>>, p: int) -> u8 {
    if p < 80 {
        0
    } else if p < 84 {
        byte_of(ts.len() as u32, p - 80)
    } else {
        record_byte(ts[(p - 84) / 50], ns[(p - 84) / 50], (p - 84) % 50)
    }
}

/// The file holding triangles `ts` with normals `ns`.
pub open spec fn file_bytes(ts: Seq<Seq<Seq<u32>>>, ns: Seq<Seq<u32>>) -> Seq<u8> {
    Seq::new((84 + 50 * ts.len()) as nat, |p: int| file_byte(ts, ns, p))
}

/// The triangle count that a file announces.
pub open spec fn declared_count(b: Seq<u8>) -> int {
    word_at(b, 80)
}

/// The bytes hold a header, a count and every record that the count announces.
pub open spec fn well_sized(b: Seq<u8>) -> bool {
    b.len() >= 84 && b.len() >= 84 + 50 * declared_count(b)
}

/// Offset of coordinate `k` of vertex `j` of record `i`.
pub open spec fn vertex_offset(i: int, j: int, k: int) -> int {
    84 + 50 * i + 12 + 12 * j + 4 * k
}

/// The vertex words of the records that a well-sized file announces.
pub open spec fn decoded(b: Seq<u8>) -> Seq<Seq<Seq<u32>>> {
    Seq::new(
        declared_count(b) as nat,
        |i: int| Seq::new(3, |j: int| Seq::new(3, |k: int| word_at(b, vertex_offset(i, j, k)) as u32)),
    )
}

pub proof fn lemma_word_bytes(w: u32)
    ensures
        byte_of(w, 0) + 256 * byte_of(w, 1) + 65536 * byte_of(w, 2) + 16777216 * byte_of(w, 3) == w,
{
    let b0 = w % 256;
    let b1 = (w / 256) % 256;
    let b2 = (w / 65536) % 256;
    let b3 = w / 16777216;
    assert(b0 + 256 * b1 + 65536 * b2 + 16777216 * b3 == w) by (nonlinear_arith)
        requires
            b0 == w % 256,
            b1 == (w / 256) % 256,
            b2 == (w / 65536) % 256,
            b3 == w / 16777216,
    ;
}

fn push_word(out: &mut Vec<u8>, w: u32)
    ensures
        final(out)@ == old(out)@ + seq![byte_of(w, 0), byte_of(w, 1), byte_of(w, 2), byte_of(w, 3)],
{
    out.push((w % 256) as u8);
    out.push(((w / 256) % 256) as u8);
    out.push(((w / 65536) % 256) as u8);
    out.push((w / 16777216) as u8);
    assert(out@ =~= old(out)@ + seq![byte_of(w, 0), byte_of(w, 1), byte_of(w, 2), byte_of(w, 3)]);
}

/// The bytes of one record: the normal, the three vertices, two zero
/// attribute bytes.
fn encode_record(t: &RawTriangle, n: &[u32; 3]) -> (r: Vec<u8>)
    ensures
        r@.len() == 50,
        forall|o: int| 0 <= o < 50 ==> #[trigger] r@[o] == record_byte(raw_view(*t), n@, o),
{
    let mut r: Vec<u8> = Vec::new();
    let mut k: usize = 0;
    while k < 3
        invariant
            0 <= k <= 3,
            r@.len() == 4 * k,
            forall|o: int| 0 <= o < 4 * k ==> #[trigger] r@[o] == record_byte(raw_view(*t), n@, o),
        decreases 3 - k,
    {
        push_word(&mut r, n[k]);
        k += 1;
    }
    let mut j: usize = 0;
    while j < 3
        invariant
            0 <= j <= 3,
            r@.len() == 12 + 12 * j,
            forall|o: int| 0 <= o < 12 + 12 * j ==> #[trigger] r@[o] == record_byte(raw_view(*t), n@, o),
        decreases 3 - j,
    {
        let v = t[j];
        let mut k: usize = 0;
        while k < 3
            invariant
                0 <= j < 3,
                0 <= k <= 3,
                v == t@[j as int],
                r@.len() == 12 + 12 * j + 4 * k,
                forall|o: int| 0 <= o < 12 + 12 * j + 4 * k ==> #[trigger] r@[o] == record_byte(raw_view(*t), n@, o),
            decreases 3 - k,
        {
            push_word(&mut r, v[k]);
            k += 1;
        }
        j += 1;
    }
    r.push(0u8);
    r.push(0u8);
    r
}

/// Writes triangles, with the given normals, in the binary triangle format:
/// a zero header, the count, and per triangle its normal, its vertices and
/// two zero attribute bytes.
pub fn encode_stl(triangles: &Vec<RawTriangle>, normals: &Vec<[u32; 3]>) -> (r: Vec<u8>)
    requires
        triangles.len() == normals.len(),
        triangles.len() <= u32::MAX,
        84 + 50 * triangles.len() <= usize::MAX,
    ensures
        r@ == file_bytes(triangles@.map_values(|t: RawTriangle| raw_view(t)), normals@.map_values(|n: [u32; 3]| n@)),
{
    let ghost ts = triangles@.map_values(|t: RawTriangle| raw_view(t));
    let ghost ns = normals@.map_values(|n: [u32; 3]| n@);
    let mut out: Vec<u8> = Vec::new();
    let mut p: usize = 0;
    while p < HEADER_LEN
        invariant
            0 <= p <= 80,
            out@.len() == p,
            forall|q: int| 0 <= q < p ==> #[trigger] out@[q] == 0,
        decreases 80 - p,
    {
        out.push(0u8);
        p += 1;
    }
    push_word(&mut out, triangles.len() as u32);
    let mut i: usize = 0;
    while i < triangles.len()
        invariant
            0 <= i <= triangles.len(),
            triangles.len() == normals.len(),
            triangles.len() <= u32::MAX,
            84 + 50 * triangles.len() <= usize::MAX,
            ts == triangles@.map_values(|t: RawTriangle| raw_view(t)),
            ns == normals@.map_values(|n: [u32; 3]| n@),
            out@.len() == 84 + 50 * i,
            forall|q: int| 0 <= q < 84 + 50 * i ==> #[trigger] out@[q] == file_byte(ts, ns, q),
        decreases triangles.len() - i,
    {
        let rec = encode_record(&triangles[i], &normals[i]);
        let ghost before = out@;
        let mut rec_mut = rec;
        out.append(&mut rec_mut);
        proof {
            assert forall|q: int| 0 <= q < 84 + 50 * (i + 1) implies #[trigger] out@[q] == file_byte(ts, ns, q) by {
                if q >= 84 + 50 * i {
                    let o = q - 84 - 50 * i;
                    assert((q - 84) / 50 == i as int);
                    assert((q - 84) % 50 == o);
                    assert(out@[q] == rec@[o]);
                }
            }
        }
        i += 1;
    }
    assert(out@ =~= file_bytes(ts, ns));
    out
}

/// Reads the vertex words of every record of a binary triangle file; the
/// header, the normals and the attribute bytes are ignored, as are bytes
/// after the last record.
pub fn decode_stl(bytes: &[u8]) -> (r: Result<Vec<RawTriangle>, StlError>)
    ensures
        match r {
            Ok(ts) => well_sized(bytes@) && ts@.map_values(|t: RawTriangle| raw_view(t)) == decoded(bytes@),
            Err(e) => !well_sized(bytes@) && (e == StlError::MissingHeader <==> bytes@.len() < 84),
        },
{
    if bytes.len() < 84 {
        return Err(StlError::MissingHeader);
    }
    let count = read_word(bytes, 80);
    if (bytes.len() as u64) < 84 + 50 * (count as u64) {
        return Err(StlError::Truncated);
    }
    let mut out: Vec<RawTriangle> = Vec::new();
    let mut i: usize = 0;
    let n = count as usize;
    let len = bytes.len();
    while i < n
        invariant
            0 <= i <= n,
            n == declared_count(bytes@),
            well_sized(bytes@),
            len == bytes@.len(),
            out@.len() == i,
            forall|a: int| 0 <= a < i ==> #[trigger] raw_view(out@[a]) == decoded(bytes@)[a],
        decreases n - i,
    {
        let base = 84 + 50 * i + 12;
        let mut t: RawTriangle = [[0u32; 3]; 3];
        let mut j: usize = 0;
        while j < 3
            invariant
                0 <= i < n,
                n == declared_count(bytes@),
                well_sized(bytes@),
                len == bytes@.len(),
                base == 84 + 50 * i + 12,
                0 <= j <= 3,
                forall|a: int, b: int| 0 <= a < j && 0 <= b < 3 ==> #[trigger] t@[a]@[b] == word_at(bytes@, vertex_offset(i as int, a, b)),
            decreases 3 - j,
        {
            let mut v: [u32; 3] = [0u32; 3];
            let mut k: usize = 0;
            while k < 3
                invariant
                    0 <= i < n,
                    n == declared_count(bytes@),
                    well_sized(bytes@),
                    len == bytes@.len(),
                    base == 84 + 50 * i + 12,
                    0 <= j < 3,
                    forall|a: int, b: int| 0 <= a < j && 0 <= b < 3 ==> #[trigger] t@[a]@[b] == word_at(bytes@, vertex_offset(i as int, a, b)),
                    0 <= k <= 3,
                    forall|b: int| 0 <= b < k ==> #[trigger] v@[b] == word_at(bytes@, vertex_offset(i as int, j as int, b)),
                decreases 3 - k,
            {
                v[k] = read_word(bytes, base + 12 * j + 4 * k);
                k += 1;
            }
            t[j] = v;
            j += 1;
        }
        out.push(t);
        proof {
            assert forall|a: int| 0 <= a < 3 implies #[trigger] raw_view(t)[a] =~= decoded(bytes@)[i as int][a] by {
                assert forall|b: int| 0 <= b < 3 implies raw_view(t)[a][b] == decoded(bytes@)[i as int][a][b] by {
                    assert(t@[a]@[b] == word_at(bytes@, vertex_offset(i as int, a, b)));
                }
            }
            assert(raw_view(t) =~= decoded(bytes@)[i as int]);
        }
        i += 1;
    }
    assert(out@.map_values(|t: RawTriangle| raw_view(t)) =~= decoded(bytes@));
    Ok(out)
}

/// The little-endian word at `at`.
fn read_word(bytes: &[u8], at: usize) -> (r: u32)
    requires
        at + 4 <= bytes@.len(),
    ensures
        r == word_at(bytes@, at as int),
{
    bytes[at] as u32 + (bytes[at + 1] as u32) * 256 + (bytes[at + 2] as u32) * 65536 + (bytes[at + 3] as u32) * 16777216
}

/// Each triangle has three vertices of three words, each normal three words.
pub open spec fn well_shaped(ts: Seq<Seq<Seq<u32>>>, ns: Seq<Seq<u32>>) -> bool {
    &&& ts.len() == ns.len()
    &&& forall|i: int| 0 <= i < ts.len() ==> (#[trigger] ts[i]).len() == 3
    &&& forall|i: int, j: int| 0 <= i < ts.len() && 0 <= j < 3 ==> (#[trigger] ts[i][j]).len() == 3
    &&& forall|i: int| 0 <= i < ns.len() ==> (#[trigger] ns[i]).len() == 3
}

proof fn lemma_record_word(ts: Seq<Seq<Seq<u32>>>, ns: Seq<Seq<u32>>, i: int, j: int, k: int)
    requires
        well_shaped(ts, ns),
        0 <= i < ts.len(),
        0 <= j < 3,
        0 <= k < 3,
    ensures
        word_at(file_bytes(ts, ns), vertex_offset(i, j, k)) == ts[i][j][k],
{
    let b = file_bytes(ts, ns);
    let at = vertex_offset(i, j, k);
    assert forall|d: int| 0 <= d < 4 implies #[trigger] b[at + d] == byte_of(ts[i][j][k], d) by {
        let q = at + d;
        let o = 12 + 12 * j + 4 * k + d;
        assert(q - 84 == 50 * i + o);
        assert((q - 84) / 50 == i);
        assert((q - 84) % 50 == o);
        assert((o - 12) / 12 == j);
        assert(((o - 12) % 12) / 4 == k);
        assert(o % 4 == d);
    }
    lemma_word_bytes(ts[i][j][k]);
}

/// Reading back what was written gives every triangle's vertex words
/// exactly, whatever the normals were.
pub proof fn lemma_round_trip(ts: Seq<Seq<Seq<u32>>>, ns: Seq<Seq<u32>>)
    requires
        well_shaped(ts, ns),
        ts.len() <= u32::MAX,
    ensures
        well_sized(file_bytes(ts, ns)),
        decoded(file_bytes(ts, ns)) == ts,
{
    let b = file_bytes(ts, ns);
    assert forall|d: int| 0 <= d < 4 implies #[trigger] b[80 + d] == byte_of(ts.len() as u32, d) by {}
    lemma_word_bytes(ts.len() as u32);
    assert(declared_count(b) == ts.len());
    assert forall|i: int| 0 <= i < ts.len() implies #[trigger] decoded(b)[i] == ts[i] by {
        assert forall|j: int| 0 <= j < 3 implies #[trigger] decoded(b)[i][j] == ts[i][j] by {
            assert forall|k: int| 0 <= k < 3 implies decoded(b)[i][j][k] == ts[i][j][k] by {
                lemma_record_word(ts, ns, i, j, k);
            }
            assert(decoded(b)[i][j] =~= ts[i][j]);
        }
        assert(decoded(b)[i] =~= ts[i]);
    }
    assert(decoded(b) =~= ts);
}

} // verus!
