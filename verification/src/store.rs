//! The store: a key directory over the buffer pool, with the PUT, GET
//! and DELETE operations and the bootstrap scan.
//!
//! The store's contracts speak of an abstract map from keys to values
//! (`Store::kv`). A put inserts into it, a delete removes from it, and
//! a get reads it; bootstrap rebuilds the key directory from the data
//! file's bytes alone.

use vstd::prelude::*;

use crate::buf::buf_to_vec;
use crate::entry::{
    enc_all, parse_at, spec_parse_at, spec_scan_from, Entry, EntryModel, ParseModel, ParseOutcome,
};
use crate::keydir::{apply_entry, KeyData, KeyDir};
use crate::manager::{Fetched, PageManager};
use crate::page::{Page, PageID};
use crate::{StoreError, HEADER_SIZE, PAGE_SIZE};

verus! {

/// The record, if any, that the store holds at `(page, off)`: parsed
/// out of the current page if `page` is current, else out of the
/// page's disk image.
pub open spec fn entry_at(s: Store, page: PageID, off: int) -> Option<EntryModel> {
    match s.manager.page_entries(page) {
        Some(es) => match spec_parse_at(enc_all(es), off) {
            ParseModel::PEntry(m) => Some(m),
            _ => None,
        },
        None => None,
    }
}

/// The key directory entry for `k` names a live put record for `k`.
pub open spec fn keydir_entry_ok(s: Store, k: Seq<u8>) -> bool {
    let kd = s.keydir@[k];
    match entry_at(s, kd.page, kd.offset as int) {
        Some(m) => !m.delete && m.key == k && m.value.len() == kd.value_len && m.time == kd.time,
        None => false,
    }
}

/// A single-node append-only key-value store.
pub struct Store {
    pub manager: PageManager,
    pub keydir: KeyDir,
}

impl Store {
    pub open spec fn wf(self) -> bool {
        &&& self.manager.wf()
        &&& self.keydir.wf()
        &&& forall|k: Seq<u8>| self.keydir@.contains_key(k) ==> #[trigger] keydir_entry_ok(self, k)
    }

    /// The value of `k`'s newest record.
    pub open spec fn value_at(self, k: Seq<u8>) -> Seq<u8> {
        match entry_at(self, self.keydir@[k].page, self.keydir@[k].offset as int) {
            Some(m) => m.value,
            None => Seq::empty(),
        }
    }

    /// The abstract contents of the store: each live key mapped to the
    /// value of its newest record.
    pub open spec fn kv(self) -> Map<Seq<u8>, Seq<u8>> {
        Map::new(|k: Seq<u8>| self.keydir@.contains_key(k), |k: Seq<u8>| self.value_at(k))
    }

    /// An empty store with `read_size` read frames.
    pub fn new(read_size: usize) -> (r: Self)
        ensures
            r.wf(),
            r.kv() == Map::<Seq<u8>, Seq<u8>>::empty(),
            r.manager.next_id < PageID::MAX,
    {
        let r = Store { manager: PageManager::new(read_size), keydir: KeyDir::new() };
        proof {
            assert(r.kv() =~= Map::<Seq<u8>, Seq<u8>>::empty());
        }
        r
    }

    /// Writes `value` under `key`: appends a put record and points the
    /// key directory at it. Returns the flushed page image to persist
    /// when the append rotated the current page. Fails exactly when the
    /// record cannot fit a page.
    pub fn put(&mut self, key: Vec<u8>, value: Vec<u8>, time: u64) -> (r: Result<
        Option<(PageID, Vec<u8>)>,
        StoreError,
    >)
        requires
            old(self).wf(),
            key@.len() >= 1,
            old(self).manager.next_id < PageID::MAX,
        ensures
            final(self).wf(),
            match r {
                Ok(fl) => {
                    &&& final(self).kv() == old(self).kv().insert(key@, value@)
                    &&& HEADER_SIZE + key@.len() + value@.len() <= PAGE_SIZE
                    &&& old(self).manager.next_id <= final(self).manager.next_id <= old(
                        self,
                    ).manager.next_id + 1
                    &&& match fl {
                        None => final(self).manager.next_id == old(self).manager.next_id,
                        Some((pid, image)) => {
                            &&& pid == old(self).manager.current.id
                            &&& image@.len() == PAGE_SIZE
                            &&& spec_scan_from(image@, 0).entries == old(
                                self,
                            ).manager.current.entries@
                            &&& final(self).manager.next_id == old(self).manager.next_id + 1
                        },
                    }
                },
                Err(e) => {
                    &&& e == StoreError::EntryTooLarge
                    &&& HEADER_SIZE + key@.len() + value@.len() > PAGE_SIZE
                    &&& *final(self) == *old(self)
                },
            },
    {
        let ghost pre = *self;
        let cur_id = self.manager.current.id;
        let entry = Entry::from_parts(false, time, key, value, 0);
        let ghost k = entry.key@;
        match self.manager.append(&entry) {
            Ok(a) => {
                let kd = KeyData {
                    page: a.page,
                    offset: a.offset as u64,
                    value_len: entry.value.len() as u64,
                    time,
                };
                let key2 = crate::entry::vec_subrange(&entry.key, 0, entry.key.len());
                proof {
                    assert(key2@ =~= k);
                }
                self.keydir.insert(key2, kd);
                proof {
                    lemma_update_preserves(pre, *self, k, kd, a.page, a.offset as int, entry@);
                }
                match a.flushed {
                    None => Ok(None),
                    Some(image) => Ok(Some((cur_id, image))),
                }
            },
            Err(e) => {
                proof {
                    assert(self.kv() =~= old(self).kv());
                }
                Err(e)
            },
        }
    }

    /// Removes `key`: appends a tombstone record and drops the key from
    /// the key directory, whether or not it was present. Returns the
    /// flushed page image to persist when the append rotated the
    /// current page.
    pub fn del(&mut self, key: &Vec<u8>, time: u64) -> (r: Result<
        Option<(PageID, Vec<u8>)>,
        StoreError,
    >)
        requires
            old(self).wf(),
            key@.len() >= 1,
            old(self).manager.next_id < PageID::MAX,
        ensures
            final(self).wf(),
            match r {
                Ok(fl) => {
                    &&& final(self).kv() == old(self).kv().remove(key@)
                    &&& HEADER_SIZE + key@.len() <= PAGE_SIZE
                    &&& old(self).manager.next_id <= final(self).manager.next_id <= old(
                        self,
                    ).manager.next_id + 1
                    &&& match fl {
                        None => final(self).manager.next_id == old(self).manager.next_id,
                        Some((pid, image)) => {
                            &&& pid == old(self).manager.current.id
                            &&& image@.len() == PAGE_SIZE
                            &&& spec_scan_from(image@, 0).entries == old(
                                self,
                            ).manager.current.entries@
                            &&& final(self).manager.next_id == old(self).manager.next_id + 1
                        },
                    }
                },
                // A delete's record holds the key alone, so it fails
                // only for a key that cannot fit a page.
                Err(e) => {
                    &&& e == StoreError::EntryTooLarge
                    &&& HEADER_SIZE + key@.len() > PAGE_SIZE
                    &&& *final(self) == *old(self)
                },
            },
    {
        let ghost pre = *self;
        let cur_id = self.manager.current.id;
        let key2 = crate::entry::vec_subrange(key, 0, key.len());
        let entry = Entry::from_parts(true, time, key2, Vec::new(), 0);
        proof {
            assert(entry.key@ =~= key@);
        }
        match self.manager.append(&entry) {
            Ok(a) => {
                self.keydir.remove(key);
                proof {
                    lemma_remove_preserves(pre, *self, key@);
                }
                match a.flushed {
                    None => Ok(None),
                    Some(image) => Ok(Some((cur_id, image))),
                }
            },
            Err(e) => {
                proof {
                    assert(self.kv() =~= old(self).kv());
                }
                Err(e)
            },
        }
    }

    /// Reads the value under `key` from the resident pages, or asks the
    /// caller to load the owning page. The store's contents do not
    /// change; only pins and access history do.
    pub fn get(&mut self, key: &Vec<u8>) -> (r: GetOutcome)
        requires
            old(self).wf(),
        ensures
            final(self).wf(),
            final(self).keydir@ == old(self).keydir@,
            final(self).kv() == old(self).kv(),
            final(self).manager.next_id == old(self).manager.next_id,
            match r {
                GetOutcome::Found(v) => old(self).kv().contains_key(key@) && v@ == old(
                    self,
                ).kv()[key@],
                GetOutcome::NotFound => !old(self).kv().contains_key(key@),
                // A page load is requested only for a page that is
                // resident nowhere, so a resident hit must return the
                // value.
                GetOutcome::NeedPage(p) => {
                    &&& old(self).kv().contains_key(key@)
                    &&& p == old(self).keydir@[key@].page
                    &&& p != old(self).manager.current.id
                    &&& forall|i: int|
                        0 <= i < old(self).manager.read_size() && old(self).manager.occupied(i)
                            ==> (#[trigger] old(self).manager.frame(i)).id != p
                    &&& *final(self) == *old(self)
                },
            },
    {
        let ghost pre = *self;
        let kd = match self.keydir.get(key) {
            None => {
                return GetOutcome::NotFound;
            },
            Some(kd) => kd,
        };
        proof {
            assert(pre.keydir@.contains_key(key@));
            assert(keydir_entry_ok(pre, key@));
        }
        match self.manager.fetch_page(kd.page) {
            Fetched::Current => {
                proof {
                    assert(entry_at(pre, kd.page, kd.offset as int) is Some);
                    assert(spec_parse_at(
                        enc_all(pre.manager.current.entries@),
                        kd.offset as int,
                    ) is PEntry);
                }
                let e = match self.manager.current.read_entry(kd.offset as usize) {
                    Ok(e) => e,
                    Err(_) => vstd::pervasive::unreached(),
                };
                proof {
                    lemma_kv_same(pre, *self);
                }
                GetOutcome::Found(e.value)
            },
            Fetched::Frame(i) => {
                let ghost mid = *self;
                let e = match &self.manager.read[i] {
                    Some(p) => {
                        proof {
                            assert(mid.manager.occupied(i as int) && mid.manager.frame(i as int) == *p);
                            assert(p.entries@ == pre.manager.disk@[kd.page]);
                            assert(p.bytes() == enc_all(p.entries@));
                            assert(entry_at(pre, kd.page, kd.offset as int) is Some);
                            assert(kd.page != pre.manager.current.id);
                        }
                        match p.read_entry(kd.offset as usize) {
                            Ok(e) => e,
                            Err(_) => vstd::pervasive::unreached(),
                        }
                    },
                    None => vstd::pervasive::unreached(),
                };
                self.manager.unpin_page(kd.page);
                proof {
                    lemma_kv_same(pre, *self);
                }
                GetOutcome::Found(e.value)
            },
            Fetched::Absent => {
                proof {
                    lemma_kv_same(pre, *self);
                }
                GetOutcome::NeedPage(kd.page)
            },
        }
    }

    /// Loads the `PAGE_SIZE`-byte image of page `id`, read at offset
    /// `id * PAGE_SIZE` of the data file, into a frame, after a get
    /// asked for it. Fails exactly when every frame is pinned.
    pub fn install_page(&mut self, id: PageID, raw: &Vec<u8>) -> (r: Result<(), StoreError>)
        requires
            old(self).wf(),
            raw@.len() <= PAGE_SIZE,
            id != old(self).manager.current.id,
            old(self).manager.disk@.contains_key(id),
            spec_scan_from(raw@, 0).entries == old(self).manager.disk@[id],
        ensures
            final(self).wf(),
            final(self).keydir@ == old(self).keydir@,
            final(self).kv() == old(self).kv(),
            final(self).manager.current.id == old(self).manager.current.id,
            final(self).manager.disk@ == old(self).manager.disk@,
            match r {
                // On success the page is resident: current, or in a frame.
                Ok(()) => final(self).manager.current.id == id || exists|i: int|
                    0 <= i < final(self).manager.read_size() && final(self).manager.occupied(i)
                        && (#[trigger] final(self).manager.frame(i)).id == id,
                // Loading fails exactly when every frame is occupied and
                // none is evictable (every resident page is pinned).
                Err(e) => {
                    &&& e == StoreError::NoFreeFrame
                    &&& forall|j: int|
                        0 <= j < old(self).manager.read_size() ==> old(self).manager.occupied(j)
                    &&& forall|j: int|
                        0 <= j < old(self).manager.read_size() ==> !(#[trigger] old(
                            self,
                        ).manager.replacer.evictable@[j])
                },
            },
    {
        let ghost pre = *self;
        match self.manager.page_index(id) {
            Some(_) => {
                proof {
                    lemma_kv_same(pre, *self);
                }
                Ok(())
            },
            None => {
                let res = self.manager.install_page(id, raw);
                proof {
                    lemma_kv_same(pre, *self);
                }
                match res {
                    Ok(_) => Ok(()),
                    Err(e) => Err(e),
                }
            },
        }
    }

    /// Flushes the current page for shutdown; the returned image must
    /// be written at `current.id * PAGE_SIZE`.
    pub fn flush_current(&mut self) -> (r: (PageID, Vec<u8>))
        requires
            old(self).wf(),
        ensures
            final(self).wf(),
            final(self).keydir@ == old(self).keydir@,
            final(self).kv() == old(self).kv(),
            r.0 == old(self).manager.current.id,
            r.1@.len() == PAGE_SIZE,
            spec_scan_from(r.1@, 0).entries == old(self).manager.current.entries@,
            final(self).manager.disk@ == old(self).manager.disk@.insert(
                old(self).manager.current.id,
                old(self).manager.current.entries@,
            ),
            // Only the disk record changes: the current page, the
            // frames, the free list, the replacer and the id allocator
            // all stay.
            final(self).manager.current == old(self).manager.current,
            final(self).manager.read@ == old(self).manager.read@,
            final(self).manager.free@ == old(self).manager.free@,
            final(self).manager.replacer == old(self).manager.replacer,
            final(self).manager.next_id == old(self).manager.next_id,
    {
        let ghost pre = *self;
        let id = self.manager.current.id;
        let image = self.manager.flush_current();
        proof {
            assert forall|k: Seq<u8>| self.keydir@.contains_key(k) implies
                #[trigger] keydir_entry_ok(*self, k) by {
                assert(keydir_entry_ok(pre, k));
                assert(self.manager.page_entries(pre.keydir@[k].page) == pre.manager.page_entries(
                    pre.keydir@[k].page,
                ));
            }
            assert(self.kv() =~= pre.kv());
        }
        (id, image)
    }
}

/// The byte region of page `p` within the data file: `PAGE_SIZE` bytes
/// at `p * PAGE_SIZE`, short if the file ends first.
pub open spec fn chunk_of(file: Seq<u8>, p: int) -> Seq<u8> {
    let lo = p * (PAGE_SIZE as int);
    let hi = if lo + PAGE_SIZE <= file.len() {
        lo + PAGE_SIZE
    } else {
        file.len() as int
    };
    file.subrange(lo, hi)
}

/// How many pages a file of `n` bytes holds.
pub open spec fn spec_page_count(n: int) -> int {
    if n == 0 {
        0
    } else {
        (n - 1) / (PAGE_SIZE as int) + 1
    }
}

/// Replays a run of records of one page, in order, into a key
/// directory map; `off` is the offset of the first record.
pub open spec fn replay_entries(
    m: Map<Seq<u8>, KeyData>,
    es: Seq<EntryModel>,
    page: PageID,
    off: int,
) -> Map<Seq<u8>, KeyData>
    decreases es.len(),
{
    if es.len() == 0 {
        m
    } else {
        replay_entries(
            apply_entry(m, es[0], page, off as u64),
            es.drop_first(),
            page,
            off + es[0].size(),
        )
    }
}

/// The key directory that scanning the first `pages` pages of a file
/// yields: each page's packed records replayed in page order.
pub open spec fn replay_file(file: Seq<u8>, pages: int) -> Map<Seq<u8>, KeyData>
    decreases pages,
{
    if pages <= 0 {
        Map::empty()
    } else {
        replay_entries(
            replay_file(file, pages - 1),
            spec_scan_from(chunk_of(file, pages - 1), 0).entries,
            (pages - 1) as PageID,
            0,
        )
    }
}

/// Every key directory entry names a live put record within the given
/// collection of page contents.
pub open spec fn kd_ok(dm: Map<PageID, Seq<EntryModel>>, kd: Map<Seq<u8>, KeyData>) -> bool {
    forall|k: Seq<u8>| kd.contains_key(k) ==> {
        let d = #[trigger] kd[k];
        &&& dm.contains_key(d.page)
        &&& match spec_parse_at(enc_all(dm[d.page]), d.offset as int) {
            ParseModel::PEntry(m) => !m.delete && m.key == k && m.value.len() == d.value_len
                && m.time == d.time,
            _ => false,
        }
    }
}

/// Rebuilds a store from the data file's bytes: scans every page in
/// order, replays each record into the key directory, and makes the
/// last page the current page. A malformed record is tolerated on the
/// last page (a truncated tail) and fatal anywhere earlier.
#[verifier::rlimit(100)]
pub fn bootstrap(file: &Vec<u8>, read_size: usize) -> (r: Result<Store, StoreError>)
    requires
        file@.len() + PAGE_SIZE <= usize::MAX,
        spec_page_count(file@.len() as int) < PageID::MAX,
    ensures
        match r {
            Ok(s) => {
                &&& s.wf()
                &&& s.keydir@ == replay_file(file@, spec_page_count(file@.len() as int))
                &&& s.manager.next_id < PageID::MAX
                &&& s.manager.read_size() == read_size
                &&& (forall|p: int|
                    0 <= p < spec_page_count(file@.len() as int)
                        ==> s.manager.disk@.contains_key(p as PageID)
                        && s.manager.disk@[p as PageID] == spec_scan_from(
                        chunk_of(file@, p),
                        0,
                    ).entries)
                &&& (forall|p: int|
                    0 <= p < spec_page_count(file@.len() as int) - 1 ==> spec_scan_from(
                        chunk_of(file@, p),
                        0,
                    ).clean)
                // The last page becomes the current page, holding
                // exactly its scanned records; writes continue there.
                &&& (if spec_page_count(file@.len() as int) == 0 {
                    &&& s.manager.current.id == 0
                    &&& s.manager.current.entries@ == Seq::<EntryModel>::empty()
                    &&& s.manager.next_id == 1
                } else {
                    &&& s.manager.current.id == spec_page_count(file@.len() as int) - 1
                    &&& s.manager.current.entries@ == spec_scan_from(
                        chunk_of(file@, spec_page_count(file@.len() as int) - 1),
                        0,
                    ).entries
                    &&& s.manager.next_id == spec_page_count(file@.len() as int)
                })
            },
            Err(e) => {
                &&& e == StoreError::Corrupt
                &&& exists|p: int|
                    0 <= p < spec_page_count(file@.len() as int) - 1 && !spec_scan_from(
                        chunk_of(file@, p),
                        0,
                    ).clean
            },
        },
{
    let n = file.len();
    let count: usize = if n == 0 {
        0
    } else {
        (n - 1) / PAGE_SIZE + 1
    };
    let mut kd = KeyDir::new();
    let mut current: Page = Page::new(0);
    let ghost mut dmap: Map<PageID, Seq<EntryModel>> = Map::empty();
    let mut p: usize = 0;
    let mut lo: usize = 0;
    while p < count
        invariant
            n == file@.len(),
            n + PAGE_SIZE <= usize::MAX,
            count == spec_page_count(n as int),
            count < PageID::MAX,
            p <= count,
            lo == p * PAGE_SIZE,
            kd.wf(),
            kd@ == replay_file(file@, p as int),
            kd_ok(dmap, kd@),
            forall|q: int| 0 <= q < p ==> dmap.contains_key(#[trigger] (q as PageID)),
            forall|q: PageID| dmap.contains_key(q) ==> q < p,
            forall|q: int|
                0 <= q < p ==> dmap[q as PageID] == spec_scan_from(chunk_of(file@, q), 0).entries,
            forall|q: int| 0 <= q < p && q < count - 1 ==> spec_scan_from(chunk_of(file@, q), 0).clean,
            current.wf(),
            current.pins == 0,
            p == 0 ==> current.id == 0 && current.entries@ == Seq::<EntryModel>::empty(),
            p > 0 ==> current.id == p - 1 && current.entries@ == spec_scan_from(
                chunk_of(file@, p as int - 1),
                0,
            ).entries,
        decreases count - p,
    {
        proof {
            let q = (n - 1) as int / (PAGE_SIZE as int);
            assert(p as int * PAGE_SIZE <= q * PAGE_SIZE);
            assert(lo < n);
        }
        let hi = if lo + PAGE_SIZE <= n {
            lo + PAGE_SIZE
        } else {
            n
        };
        let chunk = crate::entry::vec_subrange(file, lo, hi);
        proof {
            assert(chunk@ =~= chunk_of(file@, p as int));
        }
        let (page, clean) = Page::from_bytes(p as u32, &chunk);
        if !clean && p + 1 < count {
            proof {
                assert(!spec_scan_from(chunk_of(file@, p as int), 0).clean);
            }
            return Err(StoreError::Corrupt);
        }
        proof {
            dmap = dmap.insert(p as u32, page.entries@);
        }
        let v = buf_to_vec(&page.data, 0, page.len);
        proof {
            assert(v@ =~= page.bytes());
            crate::entry::lemma_scan_enc_all(v@, 0, page.entries@);
        }
        let ghost kd0 = kd@;
        let mut off: usize = 0;
        loop
            invariant
                kd.wf(),
                0 <= off <= v@.len(),
                v@ == enc_all(page.entries@),
                page.wf(),
                page.id == p,
                p < count < PageID::MAX,
                spec_scan_from(v@, 0) == (crate::entry::ScanResult {
                    entries: page.entries@,
                    end: v@.len() as int,
                    clean: true,
                }),
                spec_scan_from(v@, off as int).clean,
                replay_entries(kd0, page.entries@, p as PageID, 0) == replay_entries(
                    kd@,
                    spec_scan_from(v@, off as int).entries,
                    p as PageID,
                    off as int,
                ),
                dmap.contains_key(p as PageID) && dmap[p as PageID] == page.entries@,
                kd_ok(dmap, kd@),
            ensures
                kd.wf(),
                kd@ == replay_entries(kd0, page.entries@, p as PageID, 0),
                kd_ok(dmap, kd@),
            decreases v@.len() - off,
        {
            match parse_at(&v, off) {
                ParseOutcome::Parsed(e) => {
                    let ghost pre_kd = kd@;
                    proof {
                        crate::entry::lemma_enc_parse(v@, off as int, e@);
                        assert(spec_scan_from(v@, off as int).entries == seq![e@]
                            + spec_scan_from(v@, off as int + e@.size()).entries);
                        assert((seq![e@] + spec_scan_from(
                            v@,
                            off as int + e@.size(),
                        ).entries).drop_first() =~= spec_scan_from(
                            v@,
                            off as int + e@.size(),
                        ).entries);
                    }
                    e.add_to_key_dir(&mut kd, p as u32);
                    proof {
                        assert(e.pos == off as u64);
                        assert(kd@ == apply_entry(pre_kd, e@, p as PageID, off as u64));
                        lemma_kd_ok_apply(dmap, pre_kd, e@, p as PageID, off as int, v@);
                    }
                    off = off + (HEADER_SIZE + e.key.len() + e.value.len());
                },
                ParseOutcome::End => {
                    proof {
                        assert(spec_scan_from(v@, off as int).entries
                            == Seq::<EntryModel>::empty());
                    }
                    break ;
                },
                ParseOutcome::Corrupt => {
                    proof {
                        assert(!spec_scan_from(v@, off as int).clean);
                        assert(false);
                    }
                    break ;
                },
            }
        }
        proof {
            assert(replay_file(file@, p as int + 1) == replay_entries(
                replay_file(file@, p as int),
                spec_scan_from(chunk_of(file@, p as int), 0).entries,
                p as PageID,
                0,
            ));
            assert(page.entries@ == spec_scan_from(chunk_of(file@, p as int), 0).entries);
        }
        current = page;
        p = p + 1;
        lo = lo + PAGE_SIZE;
        proof {
            assert forall|q: int| 0 <= q < p implies dmap[q as PageID] == spec_scan_from(
                chunk_of(file@, q),
                0,
            ).entries by {
                if q < p - 1 {
                    assert(q as PageID != (p - 1) as PageID);
                }
            }
        }
    }
    let next_id: u32 = if count == 0 {
        1
    } else {
        count as u32
    };
    let manager = PageManager::with_current(current, next_id, read_size, Ghost(dmap));
    let store = Store { manager, keydir: kd };
    proof {
        assert forall|k: Seq<u8>| store.keydir@.contains_key(k) implies
            #[trigger] keydir_entry_ok(store, k) by {
            let d = store.keydir@[k];
            assert(dmap.contains_key(d.page));
            if d.page == store.manager.current.id {
                assert(store.manager.page_entries(d.page) == Some(
                    store.manager.current.entries@,
                ));
                assert(store.manager.current.entries@ == dmap[d.page]);
            } else {
                assert(store.manager.page_entries(d.page) == Some(dmap[d.page]));
            }
        }
    }
    Ok(store)
}

/// Applying one record parsed out of a recorded page keeps every key
/// directory entry pointing at a live put record.
proof fn lemma_kd_ok_apply(
    dm: Map<PageID, Seq<EntryModel>>,
    kd: Map<Seq<u8>, KeyData>,
    e: EntryModel,
    page: PageID,
    off: int,
    v: Seq<u8>,
)
    requires
        kd_ok(dm, kd),
        dm.contains_key(page),
        v == enc_all(dm[page]),
        spec_parse_at(v, off) == ParseModel::PEntry(e),
        0 <= off,
        off as u64 == off,
    ensures
        kd_ok(dm, apply_entry(kd, e, page, off as u64)),
{
    let kd2 = apply_entry(kd, e, page, off as u64);
    assert forall|k: Seq<u8>| kd2.contains_key(k) implies {
        let d = #[trigger] kd2[k];
        &&& dm.contains_key(d.page)
        &&& match spec_parse_at(enc_all(dm[d.page]), d.offset as int) {
            ParseModel::PEntry(m) => !m.delete && m.key == k && m.value.len() == d.value_len
                && m.time == d.time,
            _ => false,
        }
    } by {
        if !e.delete && (!kd.contains_key(e.key) || kd[e.key].time < e.time) && k == e.key {
            assert(kd2[k].page == page && kd2[k].offset == off as u64);
        } else {
            assert(kd.contains_key(k) && kd2[k] == kd[k]);
        }
    }
}

/// What a get observed.
pub enum GetOutcome {
    /// The key's newest value.
    Found(Vec<u8>),
    /// The key is not in the store.
    NotFound,
    /// The key's page is not resident: read its image and call
    /// `install_page`, then retry.
    NeedPage(PageID),
}

/// The store's contents are untouched by operations that leave the key
/// directory, the current page and the disk record as they were.
proof fn lemma_kv_same(pre: Store, post: Store)
    requires
        pre.wf(),
        post.keydir == pre.keydir,
        post.manager.current.id == pre.manager.current.id,
        post.manager.current.entries@ == pre.manager.current.entries@,
        post.manager.disk@ == pre.manager.disk@,
    ensures
        forall|k: Seq<u8>| post.keydir@.contains_key(k) ==> #[trigger] keydir_entry_ok(post, k),
        post.kv() == pre.kv(),
{
    assert forall|k: Seq<u8>| post.keydir@.contains_key(k) implies #[trigger] keydir_entry_ok(
        post,
        k,
    ) by {
        assert(keydir_entry_ok(pre, k));
        assert(post.manager.page_entries(pre.keydir@[k].page) == pre.manager.page_entries(
            pre.keydir@[k].page,
        ));
    }
    assert forall|k: Seq<u8>| true implies post.value_at(k) == pre.value_at(k) by {
        assert(post.manager.page_entries(pre.keydir@[k].page) == pre.manager.page_entries(
            pre.keydir@[k].page,
        ));
    }
    assert(post.kv() =~= pre.kv());
}

/// After an append of record `m` for key `k` landing at `(page, off)`
/// and the key directory update, every directory entry still names a
/// live put record, and the store's contents gain exactly `k`.
proof fn lemma_update_preserves(
    pre: Store,
    post: Store,
    k: Seq<u8>,
    kd: KeyData,
    page: PageID,
    off: int,
    m: EntryModel,
)
    requires
        pre.wf(),
        post.manager.wf(),
        post.keydir.wf(),
        !m.delete,
        m.key == k,
        m.wf(),
        kd == (KeyData { page, offset: off as u64, value_len: m.value.len() as u64, time: m.time }),
        0 <= off <= PAGE_SIZE,
        post.keydir@ == pre.keydir@.insert(k, kd),
        page == post.manager.current.id,
        spec_parse_at(post.manager.current.bytes(), off) == ParseModel::PEntry(m),
        // How the append left the pages: either the record went to the
        // old current page, or that page rotated out and the record
        // opened the new current page.
        (post.manager.current.id == pre.manager.current.id && post.manager.current.entries@ == pre.manager.current.entries@.push(
            m,
        ) && post.manager.disk@ == pre.manager.disk@) || (post.manager.current.id
            == pre.manager.next_id && post.manager.disk@ == pre.manager.disk@.insert(
            pre.manager.current.id,
            pre.manager.current.entries@,
        )),
        pre.manager.next_id < PageID::MAX,
    ensures
        forall|k2: Seq<u8>| post.keydir@.contains_key(k2) ==> #[trigger] keydir_entry_ok(post, k2),
        post.kv() == pre.kv().insert(k, m.value),
{
    assert forall|k2: Seq<u8>| post.keydir@.contains_key(k2) implies #[trigger] keydir_entry_ok(
        post,
        k2,
    ) by {
        if k2 == k {
            assert(post.manager.page_entries(page) == Some(post.manager.current.entries@));
            assert(post.manager.current.bytes() == enc_all(post.manager.current.entries@));
            assert(entry_at(post, page, off) == Some(m));
        } else {
            assert(pre.keydir@.contains_key(k2));
            assert(keydir_entry_ok(pre, k2));
            let d = pre.keydir@[k2];
            lemma_entry_preserved(pre, post, d.page, d.offset as int, m);
            assert(post.keydir@[k2] == d);
        }
    }
    assert forall|k2: Seq<u8>| pre.keydir@.contains_key(k2) && k2 != k implies post.value_at(k2)
        == pre.value_at(k2) by {
        let d = pre.keydir@[k2];
        assert(keydir_entry_ok(pre, k2));
        lemma_entry_preserved(pre, post, d.page, d.offset as int, m);
        assert(post.keydir@[k2] == d);
    }
    assert(post.value_at(k) == m.value) by {
        assert(post.manager.page_entries(page) == Some(post.manager.current.entries@));
        assert(entry_at(post, page, off) == Some(m));
    }
    assert(post.kv() =~= pre.kv().insert(k, m.value));
}

/// After a tombstone append and the key directory removal, every
/// remaining directory entry still names a live put record, and the
/// store's contents lose exactly `k`.
proof fn lemma_remove_preserves(pre: Store, post: Store, k: Seq<u8>)
    requires
        pre.wf(),
        post.manager.wf(),
        post.keydir.wf(),
        post.keydir@ == pre.keydir@.remove(k),
        (post.manager.current.id == pre.manager.current.id && (exists|m: EntryModel|
            post.manager.current.entries@ == pre.manager.current.entries@.push(m))
            && post.manager.disk@ == pre.manager.disk@) || (post.manager.current.id
            == pre.manager.next_id && post.manager.disk@ == pre.manager.disk@.insert(
            pre.manager.current.id,
            pre.manager.current.entries@,
        )),
        pre.manager.next_id < PageID::MAX,
    ensures
        forall|k2: Seq<u8>| post.keydir@.contains_key(k2) ==> #[trigger] keydir_entry_ok(post, k2),
        post.kv() == pre.kv().remove(k),
{
    assert forall|k2: Seq<u8>| post.keydir@.contains_key(k2) implies #[trigger] keydir_entry_ok(
        post,
        k2,
    ) by {
        assert(pre.keydir@.contains_key(k2));
        assert(keydir_entry_ok(pre, k2));
        let d = pre.keydir@[k2];
        lemma_located_preserved_any(pre, post, d.page, d.offset as int);
        assert(post.keydir@[k2] == d);
    }
    assert forall|k2: Seq<u8>| pre.keydir@.contains_key(k2) && k2 != k implies post.value_at(k2)
        == pre.value_at(k2) by {
        let d = pre.keydir@[k2];
        assert(keydir_entry_ok(pre, k2));
        lemma_located_preserved_any(pre, post, d.page, d.offset as int);
    }
    assert(post.kv() =~= pre.kv().remove(k));
}

/// A record located by the old state is still located, unchanged, by
/// the new state after an append (`lemma_update_preserves`' cases).
proof fn lemma_entry_preserved(pre: Store, post: Store, page: PageID, off: int, m: EntryModel)
    requires
        pre.wf(),
        entry_at(pre, page, off) is Some,
        (post.manager.current.id == pre.manager.current.id && post.manager.current.entries@ == pre.manager.current.entries@.push(
            m,
        ) && post.manager.disk@ == pre.manager.disk@) || (post.manager.current.id
            == pre.manager.next_id && post.manager.disk@ == pre.manager.disk@.insert(
            pre.manager.current.id,
            pre.manager.current.entries@,
        )),
        pre.manager.next_id < PageID::MAX,
    ensures
        entry_at(post, page, off) == entry_at(pre, page, off),
{
    lemma_located_preserved_any(pre, post, page, off);
}

/// Core preservation argument shared by put and delete.
proof fn lemma_located_preserved_any(pre: Store, post: Store, page: PageID, off: int)
    requires
        pre.wf(),
        entry_at(pre, page, off) is Some,
        (post.manager.current.id == pre.manager.current.id && (exists|m: EntryModel|
            post.manager.current.entries@ == pre.manager.current.entries@.push(m))
            && post.manager.disk@ == pre.manager.disk@) || (post.manager.current.id
            == pre.manager.next_id && post.manager.disk@ == pre.manager.disk@.insert(
            pre.manager.current.id,
            pre.manager.current.entries@,
        )),
        pre.manager.next_id < PageID::MAX,
    ensures
        entry_at(post, page, off) == entry_at(pre, page, off),
{
    let e = entry_at(pre, page, off)->0;
    if post.manager.current.id == pre.manager.current.id {
        let m = choose|m: EntryModel|
            post.manager.current.entries@ == pre.manager.current.entries@.push(m);
        if page == pre.manager.current.id {
            let b1 = enc_all(pre.manager.current.entries@);
            let b2 = enc_all(post.manager.current.entries@);
            crate::entry::lemma_enc_all_push(pre.manager.current.entries@, m);
            assert(b2 =~= b1 + m.enc());
            assert(b2.subrange(0, b1.len() as int) =~= b1);
            crate::entry::lemma_parse_stable(b1, b2, off, e);
        }
    } else {
        // Rotation: the old current page's records moved to the disk
        // record under its id; other pages are untouched, and nothing
        // pointed at the fresh page yet.
        assert(page != post.manager.current.id) by {
            if page == post.manager.current.id {
                assert(page == pre.manager.next_id);
                assert(pre.manager.page_entries(page) is Some);
                assert(pre.manager.current.id < pre.manager.next_id);
                assert(pre.manager.disk@.contains_key(page) ==> page < pre.manager.next_id);
            }
        }
        if page == pre.manager.current.id {
            assert(post.manager.page_entries(page) == Some(pre.manager.current.entries@));
        } else {
            assert(post.manager.page_entries(page) == pre.manager.page_entries(page));
        }
    }
}

} // verus!

verus! {

/// The PUT/GET round trip: after a put of `v` under `k`, a get of `k`
/// observes `v`, and keeps observing it across puts and deletes of
/// other keys, until the next put or delete of `k`. `put` ensures the
/// store's contents become `m.insert(k, v)`; `get` returns the
/// contents at `k`; `del` removes the key.
pub proof fn lemma_put_get_round_trip(
    m: Map<Seq<u8>, Seq<u8>>,
    k: Seq<u8>,
    v: Seq<u8>,
    k2: Seq<u8>,
    w: Seq<u8>,
)
    requires
        k2 != k,
    ensures
        m.insert(k, v).contains_key(k),
        m.insert(k, v)[k] == v,
        m.insert(k, v).insert(k2, w)[k] == v,
        m.insert(k, v).remove(k2)[k] == v,
{
}

/// DELETE idempotence: after a delete of `k`, a get of `k` reports the
/// key absent, and a second delete changes nothing (and, by `del`'s
/// contract, still succeeds).
pub proof fn lemma_del_idempotent(m: Map<Seq<u8>, Seq<u8>>, k: Seq<u8>)
    ensures
        !m.remove(k).contains_key(k),
        m.remove(k).remove(k) == m.remove(k),
{
    assert(m.remove(k).remove(k) =~= m.remove(k));
}

/// Replaying records that never mention `k` leaves `k`'s entry alone.
proof fn lemma_replay_skips_key(
    m: Map<Seq<u8>, KeyData>,
    es: Seq<EntryModel>,
    page: PageID,
    off: int,
    k: Seq<u8>,
)
    requires
        forall|j: int| 0 <= j < es.len() ==> (#[trigger] es[j]).key != k,
    ensures
        replay_entries(m, es, page, off).contains_key(k) == m.contains_key(k),
        m.contains_key(k) ==> replay_entries(m, es, page, off)[k] == m[k],
    decreases es.len(),
{
    if es.len() > 0 {
        let m2 = apply_entry(m, es[0], page, off as u64);
        assert(m2.contains_key(k) == m.contains_key(k) && (m.contains_key(k) ==> m2[k] == m[k]));
        assert(forall|j: int| 0 <= j < es.drop_first().len() ==> (#[trigger] es.drop_first()[j]).key
            != k);
        lemma_replay_skips_key(m2, es.drop_first(), page, off + es[0].size(), k);
    }
}

/// Replaying a run whose last record for key `k` is a put that is
/// strictly newer than every other record for `k` (earlier in the run
/// or already recorded) maps `k` to exactly that record's location.
pub proof fn lemma_replay_finds_last_put(
    m: Map<Seq<u8>, KeyData>,
    es: Seq<EntryModel>,
    page: PageID,
    off: int,
    i: int,
)
    requires
        0 <= i < es.len(),
        !es[i].delete,
        forall|j: int| i < j < es.len() ==> (#[trigger] es[j]).key != es[i].key,
        forall|j: int|
            0 <= j < i && (#[trigger] es[j]).key == es[i].key ==> es[j].time < es[i].time,
        m.contains_key(es[i].key) ==> m[es[i].key].time < es[i].time,
    ensures
        replay_entries(m, es, page, off).contains_key(es[i].key),
        replay_entries(m, es, page, off)[es[i].key] == (KeyData {
            page,
            offset: (off + enc_all(es.take(i)).len()) as u64,
            value_len: es[i].value.len() as u64,
            time: es[i].time,
        }),
    decreases i,
{
    let k = es[i].key;
    if i == 0 {
        let d = KeyData {
            page,
            offset: (off + enc_all(es.take(0)).len()) as u64,
            value_len: es[0].value.len() as u64,
            time: es[0].time,
        };
        assert(enc_all(es.take(0)).len() == 0);
        let m2 = apply_entry(m, es[0], page, off as u64);
        assert(m2 == m.insert(k, d));
        assert(forall|j: int| 0 <= j < es.drop_first().len() ==> (#[trigger] es.drop_first()[j]).key
            != k);
        lemma_replay_skips_key(m2, es.drop_first(), page, off + es[0].size(), k);
    } else {
        let m2 = apply_entry(m, es[0], page, off as u64);
        let rest = es.drop_first();
        assert(rest[i - 1] == es[i]);
        assert(m2.contains_key(k) ==> m2[k].time < es[i].time) by {
            if es[0].key == k {
                assert(es[0].time < es[i].time);
            }
        }
        assert(forall|j: int| i - 1 < j < rest.len() ==> (#[trigger] rest[j]).key != rest[i
            - 1].key);
        assert forall|j: int| 0 <= j < i - 1 && (#[trigger] rest[j]).key == rest[i - 1].key
            implies rest[j].time < rest[i - 1].time by {
            assert(rest[j] == es[j + 1]);
        }
        lemma_replay_finds_last_put(m2, rest, page, off + es[0].size(), i - 1);
        assert(es.take(i)[0] == es[0]);
        assert(es.take(i).drop_first() =~= rest.take(i - 1));
        assert(enc_all(es.take(i)) == es[0].enc() + enc_all(rest.take(i - 1)));
        assert(off + enc_all(es.take(i)).len() == off + es[0].size() + enc_all(
            rest.take(i - 1),
        ).len());
    }
}

/// Restart durability: a put whose record is the last for its key in
/// the scanned log, with a timestamp strictly newer than every other
/// record for that key, is what bootstrap recovers — the rebuilt key
/// directory points at exactly that record. With the store's
/// invariant, a get after restart then returns that record's value.
pub proof fn lemma_restart_durability(file: Seq<u8>, pages: int, p: int, i: int)
    requires
        0 <= p < pages,
        0 <= i < spec_scan_from(chunk_of(file, p), 0).entries.len(),
        !spec_scan_from(chunk_of(file, p), 0).entries[i].delete,
        // the record is the last for its key on its page ...
        forall|j: int|
            i < j < spec_scan_from(chunk_of(file, p), 0).entries.len() ==> (
            #[trigger] spec_scan_from(chunk_of(file, p), 0).entries[j]).key != spec_scan_from(
                chunk_of(file, p),
                0,
            ).entries[i].key,
        // ... strictly newer than earlier records for it on its page ...
        forall|j: int|
            0 <= j < i && (#[trigger] spec_scan_from(chunk_of(file, p), 0).entries[j]).key
                == spec_scan_from(chunk_of(file, p), 0).entries[i].key ==> spec_scan_from(
                chunk_of(file, p),
                0,
            ).entries[j].time < spec_scan_from(chunk_of(file, p), 0).entries[i].time,
        // ... newer than whatever earlier pages recorded for it ...
        replay_file(file, p).contains_key(spec_scan_from(chunk_of(file, p), 0).entries[i].key)
            ==> replay_file(file, p)[spec_scan_from(chunk_of(file, p), 0).entries[i].key].time
            < spec_scan_from(chunk_of(file, p), 0).entries[i].time,
        // ... and no later page mentions the key at all.
        forall|q: int, j: int|
            p < q < pages && 0 <= j < spec_scan_from(chunk_of(file, q), 0).entries.len() ==> (
            #[trigger] spec_scan_from(chunk_of(file, q), 0).entries[j]).key != spec_scan_from(
                chunk_of(file, p),
                0,
            ).entries[i].key,
    ensures
        replay_file(file, pages).contains_key(spec_scan_from(chunk_of(file, p), 0).entries[i].key),
        replay_file(file, pages)[spec_scan_from(chunk_of(file, p), 0).entries[i].key] == (KeyData {
            page: p as PageID,
            offset: enc_all(spec_scan_from(chunk_of(file, p), 0).entries.take(i)).len() as u64,
            value_len: spec_scan_from(chunk_of(file, p), 0).entries[i].value.len() as u64,
            time: spec_scan_from(chunk_of(file, p), 0).entries[i].time,
        }),
    decreases pages,
{
    let es = spec_scan_from(chunk_of(file, p), 0).entries;
    let k = es[i].key;
    if pages == p + 1 {
        lemma_replay_finds_last_put(replay_file(file, p), es, p as PageID, 0, i);
    } else {
        lemma_restart_durability(file, pages - 1, p, i);
        let last = spec_scan_from(chunk_of(file, pages - 1), 0).entries;
        assert(forall|j: int| 0 <= j < last.len() ==> (#[trigger] last[j]).key != k);
        lemma_replay_skips_key(
            replay_file(file, pages - 1),
            last,
            (pages - 1) as PageID,
            0,
            k,
        );
    }
}

/// Bootstrap determinism: the key directory bootstrap builds is a
/// function of the file's bytes alone, so scanning equal files yields
/// identical key directories.
pub proof fn lemma_bootstrap_deterministic(f1: Seq<u8>, f2: Seq<u8>)
    requires
        f1 == f2,
    ensures
        replay_file(f1, spec_page_count(f1.len() as int)) == replay_file(
            f2,
            spec_page_count(f2.len() as int),
        ),
{
}

} // verus!
