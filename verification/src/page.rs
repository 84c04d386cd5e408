//! Fixed-size pages of packed log records.
//!
//! A page is a `PAGE_SIZE`-byte frame on disk. In memory it carries the
//! packed region only (`len` bytes of well-formed records); the bytes
//! from `len` to `PAGE_SIZE` are written as zeros, so a header of zeros
//! marks the end of the packed region when a page is read back.

use vstd::prelude::*;

use bytes::BytesMut;

use crate::buf::{buf_bytes, buf_extend, buf_new, buf_to_vec};
use crate::entry::{
    enc_all, lemma_enc_all_push, lemma_enc_parse, lemma_scan_enc_all, lemma_zero_header_ends,
    parse_at, spec_parse_at, spec_scan_from, vec_subrange, Entry, EntryModel, ParseModel,
    ParseOutcome, ScanResult,
};
use crate::{HEADER_SIZE, PAGE_SIZE};

verus! {

/// Persisted identity of a page; page `p` lives at byte offset
/// `p * PAGE_SIZE` in the data file.
pub type PageID = u32;

/// Failures of page-level operations.
#[derive(Clone, Copy, Debug, PartialEq, Eq, Structural)]
pub enum PageError {
    /// The record does not fit in the space left on the page.
    NotEnoughSpace,
    /// No well-formed record sits at the given offset.
    Corrupt,
}

/// One page held in memory: its id, the packed record bytes, the count
/// of outstanding read references, and the length of the packed region.
pub struct Page {
    pub id: PageID,
    pub data: BytesMut,
    pub pins: u32,
    pub len: usize,
    pub entries: Ghost<Seq<EntryModel>>,
}

impl Page {
    /// The packed bytes of the page.
    pub open spec fn bytes(self) -> Seq<u8> {
        buf_bytes(self.data)
    }

    /// The packed region holds exactly the encodings of `entries`, all
    /// well formed, and fits the page.
    pub open spec fn wf(self) -> bool {
        &&& self.bytes() == enc_all(self.entries@)
        &&& self.len == self.bytes().len()
        &&& self.len <= PAGE_SIZE
        &&& forall|i: int| 0 <= i < self.entries@.len() ==> (#[trigger] self.entries@[i]).wf()
    }

    /// A fresh, empty page.
    pub fn new(id: PageID) -> (r: Self)
        ensures
            r.wf(),
            r.id == id,
            r.pins == 0,
            r.len == 0,
            r.entries@ == Seq::<EntryModel>::empty(),
    {
        Page { id, data: buf_new(), pins: 0, len: 0, entries: Ghost(Seq::empty()) }
    }

    /// Appends a record to the packed region. Succeeds, returning the
    /// record's offset, exactly when the record fits in the space left.
    pub fn write_entry(&mut self, entry: &Entry) -> (r: Result<usize, PageError>)
        requires
            old(self).wf(),
            entry.wf_sizes(),
            entry@.wf(),
        ensures
            match r {
                Ok(off) => {
                    &&& off == old(self).len
                    &&& old(self).len + entry@.size() <= PAGE_SIZE
                    &&& final(self).wf()
                    &&& final(self).id == old(self).id
                    &&& final(self).pins == old(self).pins
                    &&& final(self).entries@ == old(self).entries@.push(entry@)
                    &&& final(self).len == old(self).len + entry@.size()
                },
                Err(e) => {
                    &&& e == PageError::NotEnoughSpace
                    &&& *final(self) == *old(self)
                    &&& old(self).len + entry@.size() > PAGE_SIZE
                },
            },
    {
        let ksz = entry.key.len();
        let vsz = entry.value.len();
        if ksz > PAGE_SIZE || vsz > PAGE_SIZE || HEADER_SIZE + ksz + vsz > PAGE_SIZE - self.len {
            return Err(PageError::NotEnoughSpace);
        }
        let off = self.len;
        let encoded = entry.encode();
        buf_extend(&mut self.data, &encoded);
        self.len = self.len + encoded.len();
        proof {
            lemma_enc_all_push(old(self).entries@, entry@);
        }
        self.entries = Ghost(self.entries@.push(entry@));
        proof {
            assert(self.bytes() =~= enc_all(self.entries@));
        }
        Ok(off)
    }

    /// Decodes the record at `offset`. Succeeds exactly when a record
    /// sits there; any other offset reports corruption.
    pub fn read_entry(&self, offset: usize) -> (r: Result<Entry, PageError>)
        requires
            self.wf(),
        ensures
            match r {
                Ok(e) => {
                    &&& spec_parse_at(self.bytes(), offset as int) == ParseModel::PEntry(e@)
                    &&& e.wf_sizes()
                    &&& e@.wf()
                    &&& e.pos == offset
                },
                Err(e) => {
                    &&& e == PageError::Corrupt
                    &&& !(spec_parse_at(self.bytes(), offset as int) is PEntry)
                },
            },
    {
        let v = buf_to_vec(&self.data, 0, self.len);
        proof {
            assert(v@ =~= self.bytes());
        }
        match parse_at(&v, offset) {
            ParseOutcome::Parsed(e) => Ok(e),
            ParseOutcome::End => Err(PageError::Corrupt),
            ParseOutcome::Corrupt => Err(PageError::Corrupt),
        }
    }

    /// Takes one read reference; the count saturates rather than wraps.
    pub fn pin(&mut self)
        ensures
            *final(self) == (Page {
                pins: if old(self).pins < u32::MAX {
                    (old(self).pins + 1) as u32
                } else {
                    old(self).pins
                },
                ..*old(self)
            }),
    {
        if self.pins < u32::MAX {
            self.pins = self.pins + 1;
        }
    }

    /// Releases one read reference; a count of zero stays zero.
    pub fn unpin(&mut self)
        ensures
            *final(self) == (Page {
                pins: if old(self).pins > 0 {
                    (old(self).pins - 1) as u32
                } else {
                    0u32
                },
                ..*old(self)
            }),
    {
        if self.pins > 0 {
            self.pins = self.pins - 1;
        }
    }

    /// Rebuilds a page from the raw bytes read off disk: keeps the
    /// records of the packed prefix, and reports whether the scan
    /// stopped cleanly or on a malformed header (a truncated tail).
    pub fn from_bytes(id: PageID, raw: &Vec<u8>) -> (r: (Self, bool))
        requires
            raw@.len() <= PAGE_SIZE,
        ensures
            r.0.wf(),
            r.0.id == id,
            r.0.pins == 0,
            r.0.entries@ == spec_scan_from(raw@, 0).entries,
            r.0.len == spec_scan_from(raw@, 0).end,
            r.1 == spec_scan_from(raw@, 0).clean,
    {
        let mut off: usize = 0;
        let mut clean: bool = true;
        let ghost mut acc: Seq<EntryModel> = Seq::empty();
        loop
            invariant
                0 <= off <= raw@.len() <= PAGE_SIZE,
                spec_scan_from(raw@, 0).entries == acc + spec_scan_from(raw@, off as int).entries,
                spec_scan_from(raw@, 0).end == spec_scan_from(raw@, off as int).end,
                spec_scan_from(raw@, 0).clean == spec_scan_from(raw@, off as int).clean,
                enc_all(acc) == raw@.subrange(0, off as int),
                forall|i: int| 0 <= i < acc.len() ==> (#[trigger] acc[i]).wf(),
            ensures
                spec_scan_from(raw@, off as int).entries == Seq::<EntryModel>::empty(),
                spec_scan_from(raw@, off as int).end == off,
                spec_scan_from(raw@, off as int).clean == clean,
            decreases raw@.len() - off,
        {
            match parse_at(raw, off) {
                ParseOutcome::Parsed(e) => {
                    proof {
                        lemma_enc_parse(raw@, off as int, e@);
                        lemma_enc_all_push(acc, e@);
                        assert(spec_scan_from(raw@, off as int).entries == seq![e@]
                            + spec_scan_from(raw@, off as int + e@.size()).entries);
                        assert(acc + (seq![e@] + spec_scan_from(
                            raw@,
                            off as int + e@.size(),
                        ).entries) =~= acc.push(e@) + spec_scan_from(
                            raw@,
                            off as int + e@.size(),
                        ).entries);
                        assert(enc_all(acc.push(e@)) =~= raw@.subrange(0, off + e@.size()));
                    }
                    proof {
                        acc = acc.push(e@);
                    }
                    off = off + (HEADER_SIZE + e.key.len() + e.value.len());
                },
                ParseOutcome::End => {
                    clean = true;
                    break ;
                },
                ParseOutcome::Corrupt => {
                    clean = false;
                    break ;
                },
            }
        }
        let prefix = vec_subrange(raw, 0, off);
        let mut data = buf_new();
        buf_extend(&mut data, &prefix);
        let page = Page { id, data, pins: 0, len: off, entries: Ghost(acc) };
        proof {
            assert(page.bytes() =~= enc_all(acc));
            assert(spec_scan_from(raw@, 0).entries =~= acc);
        }
        (page, clean)
    }

    /// The page as it is laid out on disk: the packed region followed
    /// by zeros up to `PAGE_SIZE`. Scanning those bytes recovers the
    /// page's records exactly.
    pub fn to_disk_bytes(&self) -> (r: Vec<u8>)
        requires
            self.wf(),
        ensures
            r@.len() == PAGE_SIZE,
            r@.subrange(0, self.len as int) == self.bytes(),
            spec_scan_from(r@, 0) == (ScanResult {
                entries: self.entries@,
                end: self.len as int,
                clean: true,
            }),
    {
        let mut v = buf_to_vec(&self.data, 0, self.len);
        while v.len() < PAGE_SIZE
            invariant
                self.wf(),
                self.len <= v@.len() <= PAGE_SIZE,
                v@.subrange(0, self.len as int) == self.bytes(),
                forall|i: int| self.len <= i < v@.len() ==> v@[i] == 0u8,
            decreases PAGE_SIZE - v@.len(),
        {
            v.push(0u8);
            proof {
                assert(v@.subrange(0, self.len as int) =~= self.bytes());
            }
        }
        proof {
            if self.len + HEADER_SIZE <= PAGE_SIZE {
                lemma_zero_header_ends(v@, self.len as int);
            }
            assert(spec_parse_at(v@, self.len as int) == ParseModel::PEnd);
            lemma_scan_enc_all(v@, 0, self.entries@);
            assert(spec_scan_from(v@, 0) == (ScanResult {
                entries: self.entries@,
                end: self.len as int,
                clean: true,
            }));
        }
        v
    }
}

/// The bytes `[0, len)` of a well-formed page decode to exactly its
/// records, whose byte lengths sum to `len`, and the scan of them stops
/// cleanly at `len`.
pub proof fn lemma_page_decodes(p: Page)
    requires
        p.wf(),
    ensures
        enc_all(p.entries@).len() == p.len,
        spec_scan_from(p.bytes(), 0) == (ScanResult {
            entries: p.entries@,
            end: p.len as int,
            clean: true,
        }),
{
    lemma_scan_enc_all(p.bytes(), 0, p.entries@);
}

} // verus!
