//! Log records and their byte format.
//!
//! An entry is one log record: a tag byte (0 = put, 1 = delete), a
//! timestamp, the key length and value length as big-endian 64-bit
//! integers, then the key and value bytes. The fixed header is
//! `HEADER_SIZE` bytes; the whole record occupies `HEADER_SIZE` plus the
//! key and value lengths.

use vstd::prelude::*;

use crate::HEADER_SIZE;

verus! {

use vstd::string::StringSliceAdditionalSpecFns;

/// The bytes of `x` in big-endian order, most significant first.
pub open spec fn be64(x: u64) -> Seq<u8> {
    Seq::new(8, |i: int| (((x >> (((7 - i) * 8) as u64)) & 0xff) as u8))
}

/// The unsigned 64-bit integer read from 8 bytes in big-endian order.
pub open spec fn from_be64(s: Seq<u8>) -> u64
    recommends
        s.len() == 8,
{
    (((s[0] as u64) << 56u64) | ((s[1] as u64) << 48u64) | ((s[2] as u64) << 40u64) | ((
    s[3] as u64) << 32u64) | ((s[4] as u64) << 24u64) | ((s[5] as u64) << 16u64) | ((
    s[6] as u64) << 8u64) | (s[7] as u64)) as u64
}

/// Reading back the big-endian bytes of `x` yields `x`.
pub proof fn lemma_be64_roundtrip(x: u64)
    ensures
        from_be64(be64(x)) == x,
{
    assert((((((x >> 56u64) & 0xff) as u8 as u64) << 56u64) | ((((x >> 48u64) & 0xff) as u8 as u64)
        << 48u64) | ((((x >> 40u64) & 0xff) as u8 as u64) << 40u64) | ((((x >> 32u64)
        & 0xff) as u8 as u64) << 32u64) | ((((x >> 24u64) & 0xff) as u8 as u64) << 24u64) | ((((x
        >> 16u64) & 0xff) as u8 as u64) << 16u64) | ((((x >> 8u64) & 0xff) as u8 as u64) << 8u64)
        | (((x >> 0u64) & 0xff) as u8 as u64)) == x) by (bit_vector);
    assert(be64(x)[7] == ((x >> 0u64) & 0xff) as u8);
    assert(from_be64(be64(x)) == x);
}

/// Writing the integer read from 8 bytes back in big-endian order yields
/// the same 8 bytes.
pub proof fn lemma_be64_inverse(s: Seq<u8>)
    requires
        s.len() == 8,
    ensures
        be64(from_be64(s)) =~= s,
{
    let b0 = s[0];
    let b1 = s[1];
    let b2 = s[2];
    let b3 = s[3];
    let b4 = s[4];
    let b5 = s[5];
    let b6 = s[6];
    let b7 = s[7];
    let x = from_be64(s);
    assert({
        let y = (((b0 as u64) << 56u64) | ((b1 as u64) << 48u64) | ((b2 as u64) << 40u64) | ((
        b3 as u64) << 32u64) | ((b4 as u64) << 24u64) | ((b5 as u64) << 16u64) | ((b6 as u64)
            << 8u64) | (b7 as u64)) as u64;
        ((y >> 56u64) & 0xff) as u8 == b0 && ((y >> 48u64) & 0xff) as u8 == b1 && ((y >> 40u64)
            & 0xff) as u8 == b2 && ((y >> 32u64) & 0xff) as u8 == b3 && ((y >> 24u64)
            & 0xff) as u8 == b4 && ((y >> 16u64) & 0xff) as u8 == b5 && ((y >> 8u64)
            & 0xff) as u8 == b6 && ((y >> 0u64) & 0xff) as u8 == b7
    }) by (bit_vector);
    assert forall|i: int| 0 <= i < 8 implies be64(x)[i] == s[i] by {
        assert((x >> (((7 - 7) * 8) as u64)) == (x >> 0u64));
    }
}

/// Appends the 8 big-endian bytes of `x` to `out`.
pub fn put_u64_be(out: &mut Vec<u8>, x: u64)
    ensures
        final(out)@ =~= old(out)@ + be64(x),
{
    proof {
        assert(forall|y: u64, s: u64| ((y >> s) & 0xff) < 256) by (bit_vector);
    }
    out.push(((x >> 56u64) & 0xff) as u8);
    out.push(((x >> 48u64) & 0xff) as u8);
    out.push(((x >> 40u64) & 0xff) as u8);
    out.push(((x >> 32u64) & 0xff) as u8);
    out.push(((x >> 24u64) & 0xff) as u8);
    out.push(((x >> 16u64) & 0xff) as u8);
    out.push(((x >> 8u64) & 0xff) as u8);
    out.push(((x >> 0u64) & 0xff) as u8);
    proof {
        assert(be64(x)[0] == ((x >> 56u64) & 0xff) as u8);
        assert(be64(x)[1] == ((x >> 48u64) & 0xff) as u8);
        assert(be64(x)[2] == ((x >> 40u64) & 0xff) as u8);
        assert(be64(x)[3] == ((x >> 32u64) & 0xff) as u8);
        assert(be64(x)[4] == ((x >> 24u64) & 0xff) as u8);
        assert(be64(x)[5] == ((x >> 16u64) & 0xff) as u8);
        assert(be64(x)[6] == ((x >> 8u64) & 0xff) as u8);
        assert(be64(x)[7] == ((x >> 0u64) & 0xff) as u8);
    }
}

/// Reads the big-endian 64-bit integer at `off` in `bytes`.
pub fn get_u64_be(bytes: &Vec<u8>, off: usize) -> (r: u64)
    requires
        off + 8 <= bytes@.len(),
    ensures
        r == from_be64(bytes@.subrange(off as int, off as int + 8)),
{
    let ghost s = bytes@.subrange(off as int, off as int + 8);
    let n: usize = bytes.len();
    let r = ((bytes[off] as u64) << 56u64) | ((bytes[off + 1] as u64) << 48u64) | ((bytes[off
        + 2] as u64) << 40u64) | ((bytes[off + 3] as u64) << 32u64) | ((bytes[off + 4] as u64)
        << 24u64) | ((bytes[off + 5] as u64) << 16u64) | ((bytes[off + 6] as u64) << 8u64) | (
    bytes[off + 7] as u64);
    proof {
        assert(s[0] == bytes@[off as int]);
        assert(s[7] == bytes@[off as int + 7]);
    }
    r
}

/// The mathematical content of one log record: what the tag, timestamp,
/// key and value are, independent of how they are held in memory.
#[verifier::ext_equal]
pub struct EntryModel {
    pub delete: bool,
    pub time: u64,
    pub key: Seq<u8>,
    pub value: Seq<u8>,
}

impl EntryModel {
    /// Number of bytes the record occupies in a page.
    pub open spec fn size(self) -> int {
        HEADER_SIZE + self.key.len() + self.value.len()
    }

    /// A record the store may write: the key is never empty, and both
    /// lengths fit their 64-bit header fields.
    pub open spec fn wf(self) -> bool {
        &&& 1 <= self.key.len()
        &&& self.key.len() <= u64::MAX
        &&& self.value.len() <= u64::MAX
    }

    /// The byte encoding of the record: tag, then timestamp, key length
    /// and value length in big-endian, then the key and value bytes.
    pub open spec fn enc(self) -> Seq<u8> {
        seq![if self.delete { 1u8 } else { 0u8 }] + be64(self.time) + be64(self.key.len() as u64)
            + be64(self.value.len() as u64) + self.key + self.value
    }
}

/// One log record as held in memory. `key_s` and `value_s` mirror the
/// key and value lengths as they appear in the encoded header; `pos` is
/// the offset within its page at which the record sits (metadata only,
/// not part of the encoding).
pub struct Entry {
    pub delete: bool,
    pub time: u64,
    pub key_s: u64,
    pub value_s: u64,
    pub key: Vec<u8>,
    pub value: Vec<u8>,
    pub pos: u64,
}

impl View for Entry {
    type V = EntryModel;

    open spec fn view(&self) -> EntryModel {
        EntryModel { delete: self.delete, time: self.time, key: self.key@, value: self.value@ }
    }
}

impl Entry {
    /// The length fields agree with the actual key and value lengths.
    pub open spec fn wf_sizes(self) -> bool {
        &&& self.key_s == self.key@.len()
        &&& self.value_s == self.value@.len()
    }

    pub fn new(
        delete: bool,
        time: u64,
        key_s: u64,
        value_s: u64,
        key: Vec<u8>,
        value: Vec<u8>,
        pos: u64,
    ) -> (r: Self)
        ensures
            r == (Entry { delete, time, key_s, value_s, key, value, pos }),
    {
        Self { delete, time, key_s, value_s, key, value, pos }
    }

    /// Builds a record whose length fields match its key and value.
    pub fn from_parts(delete: bool, time: u64, key: Vec<u8>, value: Vec<u8>, pos: u64) -> (r: Self)
        ensures
            r@ == (EntryModel { delete, time, key: key@, value: value@ }),
            r.wf_sizes(),
            r.pos == pos,
    {
        let key_s = key.len() as u64;
        let value_s = value.len() as u64;
        Self { delete, time, key_s, value_s, key, value, pos }
    }

    /// The record's byte encoding.
    pub fn encode(&self) -> (r: Vec<u8>)
        requires
            self.wf_sizes(),
        ensures
            r@ =~= self@.enc(),
            r@.len() == self@.size(),
    {
        let mut out: Vec<u8> = Vec::new();
        out.push(if self.delete {
            1u8
        } else {
            0u8
        });
        put_u64_be(&mut out, self.time);
        put_u64_be(&mut out, self.key_s);
        put_u64_be(&mut out, self.value_s);
        push_bytes(&mut out, &self.key);
        push_bytes(&mut out, &self.value);
        out
    }

    /// The encoded bytes of a put record for the given key and value.
    pub fn new_bytes(k: &str, v: &str, time: u64) -> (r: Vec<u8>)
        ensures
            r@ =~= (EntryModel {
                delete: false,
                time,
                key: k.spec_bytes(),
                value: v.spec_bytes(),
            }).enc(),
    {
        let key = vstd::slice::slice_to_vec(k.as_bytes());
        let value = vstd::slice::slice_to_vec(v.as_bytes());
        let e = Entry::from_parts(false, time, key, value, 0);
        e.encode()
    }
}

/// Appends every byte of `src` to `out`.
pub fn push_bytes(out: &mut Vec<u8>, src: &Vec<u8>)
    ensures
        final(out)@ =~= old(out)@ + src@,
{
    let n: usize = src.len();
    let mut i: usize = 0;
    while i < n
        invariant
            i <= n,
            n == src@.len(),
            out@ =~= old(out)@ + src@.subrange(0, i as int),
        decreases n - i,
    {
        out.push(src[i]);
        i = i + 1;
        proof {
            assert(src@.subrange(0, i as int) =~= src@.subrange(0, i as int - 1) + seq![
                src@[i as int - 1],
            ]);
        }
    }
    proof {
        assert(src@.subrange(0, n as int) =~= src@);
    }
}

/// Copies the bytes of `v` in `[from, to)` into a fresh vector.
pub fn vec_subrange(v: &Vec<u8>, from: usize, to: usize) -> (r: Vec<u8>)
    requires
        from <= to <= v@.len(),
    ensures
        r@ =~= v@.subrange(from as int, to as int),
{
    let mut out: Vec<u8> = Vec::new();
    let mut i: usize = from;
    while i < to
        invariant
            from <= i <= to <= v@.len(),
            out@ =~= v@.subrange(from as int, i as int),
        decreases to - i,
    {
        out.push(v[i]);
        i = i + 1;
        proof {
            assert(v@.subrange(from as int, i as int) =~= v@.subrange(from as int, i as int - 1)
                + seq![v@[i as int - 1]]);
        }
    }
    out
}

/// What the bytes at one offset hold: a record, a clean end of the
/// packed region, or corruption.
#[verifier::ext_equal]
pub enum ParseModel {
    /// A well-formed record sits at the offset.
    PEntry(EntryModel),
    /// Scanning stops cleanly: fewer than `HEADER_SIZE` bytes remain, or
    /// the header is the all-unwritten sentinel (tag 0 with key length 0).
    PEnd,
    /// A malformed header: an unknown tag, a delete tag with an empty
    /// key, or declared lengths that run past the end of the bytes.
    PCorrupt,
}

/// Decodes the record at `off` in `bytes`, if any.
pub open spec fn spec_parse_at(bytes: Seq<u8>, off: int) -> ParseModel {
    if off < 0 || off + HEADER_SIZE > bytes.len() {
        ParseModel::PEnd
    } else {
        let tag = bytes[off];
        let time = from_be64(bytes.subrange(off + 1, off + 9));
        let klen = from_be64(bytes.subrange(off + 9, off + 17));
        let vlen = from_be64(bytes.subrange(off + 17, off + 25));
        if tag == 0 && klen == 0 {
            ParseModel::PEnd
        } else if tag > 1 || klen == 0 {
            ParseModel::PCorrupt
        } else if off + HEADER_SIZE + klen + vlen > bytes.len() {
            ParseModel::PCorrupt
        } else {
            ParseModel::PEntry(
                EntryModel {
                    delete: tag == 1,
                    time,
                    key: bytes.subrange(off + 25, off + 25 + klen),
                    value: bytes.subrange(off + 25 + klen, off + 25 + klen + vlen),
                },
            )
        }
    }
}

/// Outcome of decoding one record.
pub enum ParseOutcome {
    /// The record at the offset.
    Parsed(Entry),
    /// Clean end of the packed region.
    End,
    /// Malformed bytes at the offset.
    Corrupt,
}

/// Decodes the record at `off` in `bytes`. The returned entry records
/// `off` as its position, and its length fields match its key and value.
pub fn parse_at(bytes: &Vec<u8>, off: usize) -> (r: ParseOutcome)
    ensures
        match r {
            ParseOutcome::Parsed(e) => spec_parse_at(bytes@, off as int) == ParseModel::PEntry(e@)
                && e.wf_sizes() && e.pos == off && e@.wf(),
            ParseOutcome::End => spec_parse_at(bytes@, off as int) == ParseModel::PEnd,
            ParseOutcome::Corrupt => spec_parse_at(bytes@, off as int) == ParseModel::PCorrupt,
        },
{
    let n: usize = bytes.len();
    if off > n || n - off < HEADER_SIZE {
        return ParseOutcome::End;
    }
    let tag = bytes[off];
    let time = get_u64_be(bytes, off + 1);
    let klen = get_u64_be(bytes, off + 9);
    let vlen = get_u64_be(bytes, off + 17);
    if tag == 0 && klen == 0 {
        return ParseOutcome::End;
    }
    if tag > 1 || klen == 0 {
        return ParseOutcome::Corrupt;
    }
    let remaining: usize = n - off - HEADER_SIZE;
    if klen > remaining as u64 || vlen > (remaining as u64) - klen {
        proof {
            assert(off + HEADER_SIZE + from_be64(bytes@.subrange(off + 9, off + 17)) + from_be64(
                bytes@.subrange(off + 17, off + 25),
            ) > bytes@.len());
        }
        return ParseOutcome::Corrupt;
    }
    let key_start = off + HEADER_SIZE;
    let key_end = key_start + klen as usize;
    let value_end = key_end + vlen as usize;
    let key = vec_subrange(bytes, key_start, key_end);
    let value = vec_subrange(bytes, key_end, value_end);
    let e = Entry { delete: tag == 1, time, key_s: klen, value_s: vlen, key, value, pos: off as u64 };
    ParseOutcome::Parsed(e)
}

/// Where each component of a record sits within its encoding.
pub proof fn lemma_enc_index(m: EntryModel)
    ensures
        m.enc().len() == m.size(),
        m.enc()[0] == (if m.delete { 1u8 } else { 0u8 }),
        m.enc().subrange(1, 9) =~= be64(m.time),
        m.enc().subrange(9, 17) =~= be64(m.key.len() as u64),
        m.enc().subrange(17, 25) =~= be64(m.value.len() as u64),
        m.enc().subrange(25, 25 + m.key.len() as int) =~= m.key,
        m.enc().subrange(25 + m.key.len() as int, m.size()) =~= m.value,
{
    let t = seq![if m.delete { 1u8 } else { 0u8 }];
    let a = be64(m.time);
    let b = be64(m.key.len() as u64);
    let c = be64(m.value.len() as u64);
    let p2 = t + a;
    let p3 = p2 + b;
    let p4 = p3 + c;
    let p5 = p4 + m.key;
    assert(m.enc() == p5 + m.value);
    assert(p2.len() == 9 && p3.len() == 17 && p4.len() == 25);
    assert forall|j: int| 0 <= j < 8 implies m.enc()[1 + j] == a[j] by {
        assert((p5 + m.value)[1 + j] == p5[1 + j]);
        assert(p5[1 + j] == p4[1 + j] && p4[1 + j] == p3[1 + j] && p3[1 + j] == p2[1 + j]);
        assert(p2[1 + j] == a[j]);
    }
    assert forall|j: int| 0 <= j < 8 implies m.enc()[9 + j] == b[j] by {
        assert((p5 + m.value)[9 + j] == p5[9 + j]);
        assert(p5[9 + j] == p4[9 + j] && p4[9 + j] == p3[9 + j]);
        assert(p3[9 + j] == b[j]);
    }
    assert forall|j: int| 0 <= j < 8 implies m.enc()[17 + j] == c[j] by {
        assert((p5 + m.value)[17 + j] == p5[17 + j]);
        assert(p5[17 + j] == p4[17 + j]);
        assert(p4[17 + j] == c[j]);
    }
    assert forall|j: int| 0 <= j < m.key.len() implies m.enc()[25 + j] == m.key[j] by {
        assert((p5 + m.value)[25 + j] == p5[25 + j]);
        assert(p5[25 + j] == m.key[j]);
    }
    assert forall|j: int| 0 <= j < m.value.len() implies m.enc()[25 + m.key.len() + j]
        == m.value[j] by {
        assert((p5 + m.value)[p5.len() + j] == m.value[j]);
    }
    assert(m.enc()[0] == p5[0] && p5[0] == p4[0] && p4[0] == p3[0] && p3[0] == p2[0] && p2[0]
        == t[0]);
}

/// Decoding the bytes of an encoded record yields that record back.
pub proof fn lemma_parse_enc(bytes: Seq<u8>, off: int, m: EntryModel)
    requires
        m.wf(),
        0 <= off,
        off + m.size() <= bytes.len(),
        bytes.subrange(off, off + m.size()) =~= m.enc(),
    ensures
        spec_parse_at(bytes, off) == ParseModel::PEntry(m),
{
    let e = m.enc();
    let k = m.key.len() as int;
    let v = m.value.len() as int;
    lemma_enc_index(m);
    assert(e.len() == m.size());
    assert forall|i: int| 0 <= i < m.size() implies bytes[off + i] == #[trigger] e[i] by {
        assert(bytes.subrange(off, off + m.size())[i] == bytes[off + i]);
    }
    assert forall|j: int| 0 <= j < 8 implies bytes.subrange(off + 1, off + 9)[j] == be64(
        m.time,
    )[j] by {
        assert(bytes.subrange(off + 1, off + 9)[j] == bytes[off + 1 + j]);
        assert(bytes[off + 1 + j] == e[1 + j]);
        assert(e.subrange(1, 9)[j] == e[1 + j]);
        assert(e.subrange(1, 9)[j] == be64(m.time)[j]);
    }
    assert(bytes.subrange(off + 1, off + 9) =~= be64(m.time));
    assert forall|j: int| #![trigger bytes.subrange(off + 9, off + 17)[j]] 0 <= j < 8 implies bytes.subrange(off + 9, off + 17)[j] == be64(
        m.key.len() as u64,
    )[j] by {
        assert(bytes.subrange(off + 9, off + 17)[j] == bytes[off + 9 + j]);
        assert(bytes[off + 9 + j] == e[9 + j]);
        assert(e.subrange(9, 17)[j] == e[9 + j]);
        assert(e.subrange(9, 17)[j] == be64(m.key.len() as u64)[j]);
    }
    assert(bytes.subrange(off + 9, off + 17) =~= be64(m.key.len() as u64));
    assert forall|j: int| #![trigger bytes.subrange(off + 17, off + 25)[j]] 0 <= j < 8 implies bytes.subrange(off + 17, off + 25)[j] == be64(
        m.value.len() as u64,
    )[j] by {
        assert(bytes.subrange(off + 17, off + 25)[j] == bytes[off + 17 + j]);
        assert(bytes[off + 17 + j] == e[17 + j]);
        assert(e.subrange(17, 25)[j] == e[17 + j]);
        assert(e.subrange(17, 25)[j] == be64(m.value.len() as u64)[j]);
    }
    assert(bytes.subrange(off + 17, off + 25) =~= be64(m.value.len() as u64));
    lemma_be64_roundtrip(m.time);
    lemma_be64_roundtrip(m.key.len() as u64);
    lemma_be64_roundtrip(m.value.len() as u64);
    assert(bytes[off] == (if m.delete { 1u8 } else { 0u8 }));
    assert forall|j: int| #![trigger bytes.subrange(off + 25, off + 25 + k)[j]] 0 <= j < k implies bytes.subrange(off + 25, off + 25 + k)[j]
        == m.key[j] by {
        assert(bytes.subrange(off + 25, off + 25 + k)[j] == bytes[off + 25 + j]);
        assert(bytes[off + 25 + j] == e[25 + j]);
        assert(e.subrange(25, 25 + k)[j] == e[25 + j]);
        assert(e.subrange(25, 25 + k)[j] == m.key[j]);
    }
    assert(bytes.subrange(off + 25, off + 25 + k) =~= m.key);
    assert forall|j: int| #![trigger bytes.subrange(off + 25 + k, off + 25 + k + v)[j]] 0 <= j < v implies bytes.subrange(off + 25 + k, off + 25 + k + v)[j]
        == m.value[j] by {
        assert(bytes.subrange(off + 25 + k, off + 25 + k + v)[j] == bytes[off + 25 + k + j]);
        assert(bytes[off + 25 + k + j] == e[25 + k + j]);
        assert(e.subrange(25 + k, m.size())[j] == e[25 + k + j]);
        assert(e.subrange(25 + k, m.size())[j] == m.value[j]);
    }
    assert(bytes.subrange(off + 25 + k, off + 25 + k + v) =~= m.value);
}

/// A record decoded from bytes re-encodes to exactly those bytes.
pub proof fn lemma_enc_parse(bytes: Seq<u8>, off: int, m: EntryModel)
    requires
        spec_parse_at(bytes, off) == ParseModel::PEntry(m),
    ensures
        m.wf(),
        HEADER_SIZE < m.size(),
        0 <= off,
        off + m.size() <= bytes.len(),
        bytes.subrange(off, off + m.size()) =~= m.enc(),
{
    let tag = bytes[off];
    let time = from_be64(bytes.subrange(off + 1, off + 9));
    let klen = from_be64(bytes.subrange(off + 9, off + 17));
    let vlen = from_be64(bytes.subrange(off + 17, off + 25));
    assert(m == (EntryModel {
        delete: tag == 1,
        time,
        key: bytes.subrange(off + 25, off + 25 + klen),
        value: bytes.subrange(off + 25 + klen, off + 25 + klen + vlen),
    }));
    lemma_be64_inverse(bytes.subrange(off + 1, off + 9));
    lemma_be64_inverse(bytes.subrange(off + 9, off + 17));
    lemma_be64_inverse(bytes.subrange(off + 17, off + 25));
    let k = m.key.len() as int;
    let v = m.value.len() as int;
    assert(m.key.len() == klen && m.value.len() == vlen);
    assert(be64(m.time) =~= bytes.subrange(off + 1, off + 9));
    assert(be64(m.key.len() as u64) =~= bytes.subrange(off + 9, off + 17));
    assert(be64(m.value.len() as u64) =~= bytes.subrange(off + 17, off + 25));
    assert(bytes.subrange(off, off + m.size()) =~= m.enc());
}

/// A record parse is stable under appending bytes: whatever parses in a
/// prefix parses the same way in any extension.
pub proof fn lemma_parse_stable(b1: Seq<u8>, b2: Seq<u8>, off: int, m: EntryModel)
    requires
        spec_parse_at(b1, off) == ParseModel::PEntry(m),
        b1.len() <= b2.len(),
        b2.subrange(0, b1.len() as int) == b1,
    ensures
        spec_parse_at(b2, off) == ParseModel::PEntry(m),
{
    lemma_enc_parse(b1, off, m);
    assert forall|j: int| 0 <= j < m.size() implies b2.subrange(off, off + m.size())[j]
        == m.enc()[j] by {
        assert(b2[off + j] == b2.subrange(0, b1.len() as int)[off + j]);
        assert(b1.subrange(off, off + m.size())[j] == b1[off + j]);
    }
    assert(b2.subrange(off, off + m.size()) =~= m.enc());
    lemma_parse_enc(b2, off, m);
}

/// The packed encoding of a sequence of records, first record first.
pub open spec fn enc_all(es: Seq<EntryModel>) -> Seq<u8>
    decreases es.len(),
{
    if es.len() == 0 {
        Seq::empty()
    } else {
        es[0].enc() + enc_all(es.drop_first())
    }
}

/// Appending one record to a sequence appends its encoding to the
/// packed bytes.
pub proof fn lemma_enc_all_push(es: Seq<EntryModel>, m: EntryModel)
    ensures
        enc_all(es.push(m)) =~= enc_all(es) + m.enc(),
    decreases es.len(),
{
    if es.len() == 0 {
        assert(es.push(m)[0] == m);
        assert(es.push(m).drop_first() =~= Seq::<EntryModel>::empty());
        assert(enc_all(es.push(m)) == m.enc() + enc_all(Seq::<EntryModel>::empty()));
        assert(enc_all(es) == Seq::<u8>::empty());
    } else {
        assert(es.push(m).drop_first() =~= es.drop_first().push(m));
        lemma_enc_all_push(es.drop_first(), m);
        assert(es.push(m)[0] == es[0]);
        assert(enc_all(es.push(m)) == es[0].enc() + (enc_all(es.drop_first()) + m.enc()));
        assert(enc_all(es) == es[0].enc() + enc_all(es.drop_first()));
    }
}

/// What scanning a byte region yields: the records of its packed
/// prefix, the offset where scanning stopped, and whether it stopped
/// cleanly (end or sentinel) rather than on a malformed header.
#[verifier::ext_equal]
pub struct ScanResult {
    pub entries: Seq<EntryModel>,
    pub end: int,
    pub clean: bool,
}

/// Scans records one after another from `off` until a clean end or a
/// malformed header.
pub open spec fn spec_scan_from(bytes: Seq<u8>, off: int) -> ScanResult
    decreases bytes.len() - off,
{
    match spec_parse_at(bytes, off) {
        ParseModel::PEnd => ScanResult { entries: Seq::empty(), end: off, clean: true },
        ParseModel::PCorrupt => ScanResult { entries: Seq::empty(), end: off, clean: false },
        ParseModel::PEntry(m) => {
            let r = spec_scan_from(bytes, off + m.size());
            ScanResult { entries: seq![m] + r.entries, end: r.end, clean: r.clean }
        },
    }
}

/// Scanning a region that holds the packed encodings of `es` followed
/// by a clean stop yields exactly `es`.
pub proof fn lemma_scan_enc_all(bytes: Seq<u8>, off: int, es: Seq<EntryModel>)
    requires
        0 <= off,
        off + enc_all(es).len() <= bytes.len(),
        bytes.subrange(off, off + enc_all(es).len()) =~= enc_all(es),
        forall|i: int| 0 <= i < es.len() ==> (#[trigger] es[i]).wf(),
        spec_parse_at(bytes, off + enc_all(es).len()) == ParseModel::PEnd,
    ensures
        spec_scan_from(bytes, off) == (ScanResult {
            entries: es,
            end: off + enc_all(es).len(),
            clean: true,
        }),
    decreases es.len(),
{
    if es.len() == 0 {
        assert(enc_all(es).len() == 0);
    } else {
        let m = es[0];
        let rest = es.drop_first();
        assert(enc_all(es) =~= m.enc() + enc_all(rest));
        assert(m.wf());
        assert(bytes.subrange(off, off + m.size()) =~= m.enc()) by {
            assert(forall|i: int| 0 <= i < enc_all(es).len() ==> bytes[off + i]
                == #[trigger] enc_all(es)[i]);
        }
        lemma_parse_enc(bytes, off, m);
        assert forall|j: int| 0 <= j < enc_all(rest).len() implies bytes.subrange(
            off + m.size(),
            off + m.size() + enc_all(rest).len(),
        )[j] == enc_all(rest)[j] by {
            assert(enc_all(es)[m.size() + j] == bytes[off + m.size() + j]);
            assert(enc_all(es)[m.size() + j] == (m.enc() + enc_all(rest))[m.size() + j]);
            assert(m.enc().len() == m.size());
        }
        assert(bytes.subrange(off + m.size(), off + m.size() + enc_all(rest).len())
            =~= enc_all(rest));
        lemma_scan_enc_all(bytes, off + m.size(), rest);
        assert(spec_scan_from(bytes, off).entries =~= es);
    }
}

/// A header of all-zero bytes is the clean-end sentinel.
pub proof fn lemma_zero_header_ends(bytes: Seq<u8>, off: int)
    requires
        0 <= off,
        off + HEADER_SIZE <= bytes.len(),
        forall|i: int| off <= i < off + HEADER_SIZE ==> bytes[i] == 0u8,
    ensures
        spec_parse_at(bytes, off) == ParseModel::PEnd,
{
    let s = bytes.subrange(off + 9, off + 17);
    assert(s[0] == 0u8 && s[1] == 0u8 && s[2] == 0u8 && s[3] == 0u8 && s[4] == 0u8 && s[5] == 0u8
        && s[6] == 0u8 && s[7] == 0u8);
    assert((((0u8 as u64) << 56u64) | ((0u8 as u64) << 48u64) | ((0u8 as u64) << 40u64) | ((
    0u8 as u64) << 32u64) | ((0u8 as u64) << 24u64) | ((0u8 as u64) << 16u64) | ((0u8 as u64)
        << 8u64) | (0u8 as u64)) == 0u64) by (bit_vector);
    assert(from_be64(s) == 0u64);
    assert(bytes[off] == 0u8);
}

} // verus!
