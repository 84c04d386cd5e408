//! The buffer pool: one writable current page, a fixed array of
//! read-only frames with LRU-K replacement, and a ghost record of what
//! has been handed to the disk.
//!
//! The manager itself does no I/O. An operation that needs the data
//! file returns the exact page image to be written at `id * PAGE_SIZE`,
//! or asks the caller to read one and hand its bytes to `install_page`.
//! The ghost `disk` map records the records of every page image handed
//! out, so contracts can say what a faithful disk must hand back.

use vstd::prelude::*;

use crate::entry::{
    enc_all, lemma_enc_all_push, lemma_parse_enc, spec_parse_at, spec_scan_from, Entry, EntryModel,
    ParseModel, ScanResult,
};
use crate::page::{Page, PageError, PageID};
use crate::replacer::LrukReplacer;
use crate::{StoreError, PAGE_SIZE};

verus! {

use vstd::pervasive::VecAdditionalExecFns;

/// Where a resident page lives: the writable current page, or a read
/// frame slot.
#[derive(Clone, Copy, Debug, PartialEq, Eq, Structural)]
pub enum PageIndex {
    Write,
    Read(usize),
}

/// Outcome of a successful append: the page and offset where the
/// record landed, and, when the append rotated the current page, the
/// full disk image of the page that must be written out.
pub struct AppendOk {
    pub page: PageID,
    pub offset: usize,
    pub flushed: Option<Vec<u8>>,
}

/// Default number of read frames.
pub const DEFAULT_READ_SIZE: usize = 8;

pub struct PageManager {
    pub current: Page,
    pub read: Vec<Option<Page>>,
    pub free: Vec<usize>,
    pub next_id: PageID,
    pub replacer: LrukReplacer,
    pub disk: Ghost<Map<PageID, Seq<EntryModel>>>,
}

impl PageManager {
    /// Number of read frames.
    pub open spec fn read_size(self) -> int {
        self.read@.len() as int
    }

    /// Frame `i` holds a page.
    pub open spec fn occupied(self, i: int) -> bool {
        self.read@[i] is Some
    }

    /// The page in frame `i`.
    pub open spec fn frame(self, i: int) -> Page {
        self.read@[i]->0
    }

    /// The records of resident or flushed page `id`, preferring the
    /// live current page over a stale flushed image of it.
    pub open spec fn page_entries(self, id: PageID) -> Option<Seq<EntryModel>> {
        if id == self.current.id {
            Some(self.current.entries@)
        } else if self.disk@.contains_key(id) {
            Some(self.disk@[id])
        } else {
            None
        }
    }

    pub open spec fn wf(self) -> bool {
        &&& self.current.wf()
        &&& self.current.id < self.next_id
        &&& forall|i: int|
            0 <= i < self.read_size() && self.occupied(i) ==> (#[trigger] self.frame(i)).wf()
        &&& forall|i: int|
            0 <= i < self.read_size() && self.occupied(i) ==> (#[trigger] self.frame(i)).id
                != self.current.id
        &&& forall|i: int|
            0 <= i < self.read_size() && self.occupied(i) ==> (#[trigger] self.frame(i)).id
                < self.next_id
        &&& forall|i: int, j: int|
            0 <= i < j < self.read_size() && self.occupied(i) && self.occupied(j) ==> (
            #[trigger] self.frame(i)).id != (#[trigger] self.frame(j)).id
        &&& forall|i: int|
            0 <= i < self.read_size() && self.occupied(i) ==> self.disk@.contains_key(
                (#[trigger] self.frame(i)).id,
            ) && self.frame(i).entries@ == self.disk@[self.frame(i).id]
        &&& forall|id: PageID| self.disk@.contains_key(id) ==> id < self.next_id
        &&& forall|t: int|
            0 <= t < self.free@.len() ==> 0 <= #[trigger] self.free@[t] < self.read_size()
                && !self.occupied(self.free@[t] as int)
        &&& forall|i: int|
            0 <= i < self.read_size() && !self.occupied(i) ==> self.free@.contains(i as usize)
        &&& forall|a: int, b: int|
            0 <= a < b < self.free@.len() ==> #[trigger] self.free@[a] != #[trigger] self.free@[b]
        &&& self.replacer.wf()
        &&& self.replacer.slots() == self.read_size()
        &&& forall|i: int|
            0 <= i < self.read_size() && (#[trigger] self.replacer.evictable@[i]) ==> self.occupied(
                i,
            ) && self.frame(i).pins == 0
    }

    /// A pool over `read_size` empty frames, a fresh current page of id
    /// 0, and nothing yet on disk.
    pub fn new(read_size: usize) -> (r: Self)
        ensures
            r.wf(),
            r.current.id == 0,
            r.current.entries@ == Seq::<EntryModel>::empty(),
            r.current.len == 0,
            r.next_id == 1,
            r.read_size() == read_size,
            forall|i: int| 0 <= i < read_size ==> !r.occupied(i),
            r.disk@ == Map::<PageID, Seq<EntryModel>>::empty(),
            r.replacer.k == 2,
            r.replacer.now == 0,
            forall|i: int| 0 <= i < read_size ==> (#[trigger] r.replacer.hist@[i])@.len() == 0,
            forall|i: int| 0 <= i < read_size ==> !(#[trigger] r.replacer.evictable@[i]),
    {
        Self::with_current(Page::new(0), 1, read_size, Ghost(Map::empty()))
    }

    /// A pool whose current page and disk record come from bootstrap.
    pub fn with_current(
        current: Page,
        next_id: PageID,
        read_size: usize,
        disk: Ghost<Map<PageID, Seq<EntryModel>>>,
    ) -> (r: Self)
        requires
            current.wf(),
            current.id < next_id,
            forall|id: PageID| disk@.contains_key(id) ==> id < next_id,
        ensures
            r.wf(),
            r.current == current,
            r.next_id == next_id,
            r.read_size() == read_size,
            forall|i: int| 0 <= i < read_size ==> !r.occupied(i),
            r.disk@ == disk@,
            r.replacer.k == 2,
            r.replacer.now == 0,
            forall|i: int| 0 <= i < read_size ==> (#[trigger] r.replacer.hist@[i])@.len() == 0,
            forall|i: int| 0 <= i < read_size ==> !(#[trigger] r.replacer.evictable@[i]),
    {
        let mut read: Vec<Option<Page>> = Vec::new();
        let mut free: Vec<usize> = Vec::new();
        let mut i: usize = 0;
        while i < read_size
            invariant
                i <= read_size,
                read@.len() == i,
                free@.len() == i,
                forall|j: int| 0 <= j < i ==> (#[trigger] read@[j]) is None,
                forall|j: int| 0 <= j < i ==> #[trigger] free@[j] == i - 1 - j,
            decreases read_size - i,
        {
            read.push(None);
            free.push(0);
            let mut t: usize = 0;
            while t < free.len()
                invariant
                    t <= free@.len() == i + 1,
                    forall|j: int| 0 <= j < t ==> #[trigger] free@[j] == i - j,
                    forall|j: int| t <= j < i ==> #[trigger] free@[j] == i - 1 - j,
                decreases free@.len() - t,
            {
                free.set(t, free.len() - 1 - t);
                t = t + 1;
            }
            i = i + 1;
        }
        let replacer = LrukReplacer::new(2, read_size);
        let r = PageManager { current, read, free, next_id, replacer, disk };
        proof {
            assert forall|j: int| 0 <= j < r.read_size() && !r.occupied(j) implies r.free@.contains(
                j as usize,
            ) by {
                assert(r.free@[read_size - 1 - j] == j);
            }
        }
        r
    }

    /// Allocates the next page id.
    pub fn inc_id(&mut self) -> (r: PageID)
        requires
            old(self).next_id < PageID::MAX,
        ensures
            r == old(self).next_id,
            *final(self) == (PageManager { next_id: (old(self).next_id + 1) as PageID, ..*old(self) }),
    {
        let id = self.next_id;
        self.next_id = self.next_id + 1;
        id
    }

    /// Where page `id` currently resides, if it is in memory.
    pub fn page_index(&self, id: PageID) -> (r: Option<PageIndex>)
        requires
            self.wf(),
        ensures
            match r {
                Some(PageIndex::Write) => id == self.current.id,
                Some(PageIndex::Read(i)) => i < self.read_size() && self.occupied(i as int)
                    && self.frame(i as int).id == id,
                None => id != self.current.id && forall|i: int|
                    0 <= i < self.read_size() && self.occupied(i) ==> (#[trigger] self.frame(
                        i,
                    )).id != id,
            },
    {
        if id == self.current.id {
            return Some(PageIndex::Write);
        }
        let n = self.read.len();
        let mut i: usize = 0;
        while i < n
            invariant
                i <= n,
                n == self.read_size(),
                self.wf(),
                forall|j: int|
                    0 <= j < i && self.occupied(j) ==> (#[trigger] self.frame(j)).id != id,
            decreases n - i,
        {
            match &self.read[i] {
                Some(p) => {
                    if p.id == id {
                        return Some(PageIndex::Read(i));
                    }
                },
                None => {},
            }
            i = i + 1;
        }
        None
    }

    /// Flushes the current page: records its contents as the disk copy
    /// of its id and returns the `PAGE_SIZE`-byte image to write at
    /// `id * PAGE_SIZE`. The page itself is untouched.
    pub fn flush_current(&mut self) -> (r: Vec<u8>)
        requires
            old(self).wf(),
        ensures
            final(self).wf(),
            r@.len() == PAGE_SIZE,
            spec_scan_from(r@, 0) == (ScanResult {
                entries: old(self).current.entries@,
                end: old(self).current.len as int,
                clean: true,
            }),
            *final(self) == (PageManager {
                disk: Ghost(
                    old(self).disk@.insert(old(self).current.id, old(self).current.entries@),
                ),
                ..*old(self)
            }),
    {
        let image = self.current.to_disk_bytes();
        self.disk = Ghost(self.disk@.insert(self.current.id, self.current.entries@));
        proof {
            lemma_wf_rotate(*old(self), *self);
        }
        image
    }

    /// Flushes the current page and replaces it with a fresh empty page
    /// of the next id. Returns the flushed image to write out.
    pub fn replace_page(&mut self) -> (r: Vec<u8>)
        requires
            old(self).wf(),
            old(self).next_id < PageID::MAX,
        ensures
            final(self).wf(),
            r@.len() == PAGE_SIZE,
            spec_scan_from(r@, 0) == (ScanResult {
                entries: old(self).current.entries@,
                end: old(self).current.len as int,
                clean: true,
            }),
            final(self).current.wf(),
            final(self).current.id == old(self).next_id,
            final(self).current.entries@ == Seq::<EntryModel>::empty(),
            final(self).current.len == 0,
            final(self).next_id == old(self).next_id + 1,
            final(self).disk@ == old(self).disk@.insert(
                old(self).current.id,
                old(self).current.entries@,
            ),
            final(self).read@ == old(self).read@,
            final(self).free@ == old(self).free@,
            final(self).replacer == old(self).replacer,
    {
        let image = self.flush_current();
        let id = self.inc_id();
        self.current = Page::new(id);
        proof {
            lemma_wf_rotate(*old(self), *self);
        }
        image
    }

    /// Appends a record to the log. If the current page has room the
    /// record lands there; otherwise the page is flushed (its image is
    /// returned for writing) and the record opens a fresh page. Fails
    /// exactly when the record cannot fit any page.
    pub fn append(&mut self, entry: &Entry) -> (r: Result<AppendOk, StoreError>)
        requires
            old(self).wf(),
            entry.wf_sizes(),
            entry@.wf(),
            old(self).next_id < PageID::MAX,
        ensures
            final(self).wf(),
            match r {
                Ok(a) => {
                    &&& entry@.size() <= PAGE_SIZE
                    &&& a.page == final(self).current.id
                    &&& final(self).current.entries@.last() == entry@
                    &&& spec_parse_at(final(self).current.bytes(), a.offset as int)
                        == ParseModel::PEntry(entry@)
                    &&& final(self).read@ == old(self).read@
                    &&& final(self).free@ == old(self).free@
                    &&& final(self).replacer == old(self).replacer
                    &&& (match a.flushed {
                        None => {
                            &&& a.page == old(self).current.id
                            &&& a.offset == old(self).current.len
                            &&& final(self).current.entries@ == old(
                                self,
                            ).current.entries@.push(entry@)
                            &&& final(self).disk@ == old(self).disk@
                            &&& final(self).next_id == old(self).next_id
                        },
                        Some(image) => {
                            &&& image@.len() == PAGE_SIZE
                            &&& spec_scan_from(image@, 0) == (ScanResult {
                                entries: old(self).current.entries@,
                                end: old(self).current.len as int,
                                clean: true,
                            })
                            &&& a.page == old(self).next_id
                            &&& a.offset == 0
                            &&& final(self).current.entries@ == seq![entry@]
                            &&& final(self).disk@ == old(self).disk@.insert(
                                old(self).current.id,
                                old(self).current.entries@,
                            )
                            &&& final(self).next_id == old(self).next_id + 1
                        },
                    })
                    &&& (forall|id: PageID|
                        id != old(self).current.id && id != a.page ==> final(self).page_entries(id)
                            == old(self).page_entries(id))
                },
                Err(e) => {
                    &&& e == StoreError::EntryTooLarge
                    &&& entry@.size() > PAGE_SIZE
                    &&& *final(self) == *old(self)
                },
            },
    {
        match self.current.write_entry(entry) {
            Ok(off) => {
                proof {
                    lemma_parse_last(self.current, old(self).current.entries@, entry@);
                    lemma_wf_current(*old(self), *self);
                }
                Ok(AppendOk { page: self.current.id, offset: off, flushed: None })
            },
            Err(PageError::NotEnoughSpace) => {
                let ksz = entry.key.len();
                let vsz = entry.value.len();
                if ksz > PAGE_SIZE || vsz > PAGE_SIZE || crate::HEADER_SIZE + ksz + vsz
                    > PAGE_SIZE {
                    return Err(StoreError::EntryTooLarge);
                }
                let image = self.replace_page();
                let ghost mid = *self;
                match self.current.write_entry(entry) {
                    Ok(off) => {
                        proof {
                            lemma_parse_last(
                                self.current,
                                Seq::<EntryModel>::empty(),
                                entry@,
                            );
                            assert(self.current.entries@ =~= seq![entry@]);
                            lemma_wf_current(mid, *self);
                        }
                        Ok(AppendOk { page: self.current.id, offset: off, flushed: Some(image) })
                    },
                    Err(_) => {
                        // The page is empty and the record fits PAGE_SIZE, so
                        // this second write cannot refuse.
                        vstd::pervasive::unreached()
                    },
                }
            },
            Err(PageError::Corrupt) => vstd::pervasive::unreached(),
        }
    }
}

/// Where a fetch found its page.
pub enum Fetched {
    /// The page is the current page; read it under the writer's state.
    Current,
    /// The page sits pinned in this read frame.
    Frame(usize),
    /// The page is not resident; read its image off disk and hand it
    /// to `install_page`.
    Absent,
}

impl PageManager {
    /// Pins resident page `id` where it lives, recording the access for
    /// frame hits. `Absent` asks the caller to load the page's image.
    pub fn fetch_page(&mut self, id: PageID) -> (r: Fetched)
        requires
            old(self).wf(),
        ensures
            final(self).wf(),
            final(self).current.id == old(self).current.id,
            final(self).current.entries@ == old(self).current.entries@,
            final(self).current.len == old(self).current.len,
            final(self).disk@ == old(self).disk@,
            final(self).next_id == old(self).next_id,
            final(self).free@ == old(self).free@,
            final(self).read_size() == old(self).read_size(),
            match r {
                // The current page is pinned where it stands (it is
                // conceptually always pinned and never evicted).
                Fetched::Current => id == old(self).current.id && *final(self) == (PageManager {
                    current: (Page {
                        pins: if old(self).current.pins < u32::MAX {
                            (old(self).current.pins + 1) as u32
                        } else {
                            old(self).current.pins
                        },
                        ..old(self).current
                    }),
                    ..*old(self)
                }),
                Fetched::Frame(i) => {
                    &&& i < old(self).read_size()
                    &&& old(self).occupied(i as int)
                    &&& old(self).frame(i as int).id == id
                    &&& final(self).occupied(i as int)
                    &&& final(self).frame(i as int).id == id
                    &&& final(self).frame(i as int).entries@ == old(self).frame(
                        i as int,
                    ).entries@
                    // The frame's page gains one pin; nothing else in
                    // the frame array changes.
                    &&& final(self).read@ == old(self).read@.update(
                        i as int,
                        Some(
                            Page {
                                pins: if old(self).frame(i as int).pins < u32::MAX {
                                    (old(self).frame(i as int).pins + 1) as u32
                                } else {
                                    old(self).frame(i as int).pins
                                },
                                ..old(self).frame(i as int)
                            },
                        ),
                    )
                    // An access is recorded for the slot, retaining the
                    // last k stamps, and the slot stops being evictable.
                    &&& final(self).replacer.k == old(self).replacer.k
                    &&& (final(self).replacer.hist@[i as int])@ == (if (old(
                        self,
                    ).replacer.hist@[i as int])@.len() == old(self).replacer.k {
                        (old(self).replacer.hist@[i as int])@.drop_first()
                    } else {
                        (old(self).replacer.hist@[i as int])@
                    }).push(old(self).replacer.now)
                    &&& forall|j: int|
                        0 <= j < old(self).read_size() && j != i ==> final(self).replacer.hist@[j]
                            == old(self).replacer.hist@[j]
                    &&& final(self).replacer.evictable@ == old(self).replacer.evictable@.update(
                        i as int,
                        false,
                    )
                },
                Fetched::Absent => {
                    &&& *final(self) == *old(self)
                    &&& id != old(self).current.id
                    &&& forall|j: int|
                        0 <= j < old(self).read_size() && old(self).occupied(j) ==> (
                        #[trigger] old(self).frame(j)).id != id
                },
            },
    {
        match self.page_index(id) {
            Some(PageIndex::Write) => {
                self.current.pin();
                proof {
                    lemma_wf_current(*old(self), *self);
                }
                Fetched::Current
            },
            Some(PageIndex::Read(i)) => {
                self.replacer.record_access(i);
                self.replacer.set_evictable(i, false);
                let slot = self.read.remove(i);
                let mut page = match slot {
                    Some(p) => p,
                    None => vstd::pervasive::unreached(),
                };
                page.pin();
                self.read.insert(i, Some(page));
                proof {
                    assert(self.read@ =~= old(self).read@.update(i as int, Some(page)));
                    lemma_wf_slot_update(*old(self), *self, i as int, page);
                }
                Fetched::Frame(i)
            },
            None => Fetched::Absent,
        }
    }

    /// Releases one reference on resident read page `id`; when the last
    /// reference goes, its frame becomes evictable. Pages not held in a
    /// read frame are left alone.
    pub fn unpin_page(&mut self, id: PageID)
        requires
            old(self).wf(),
        ensures
            final(self).wf(),
            final(self).current == old(self).current,
            final(self).disk@ == old(self).disk@,
            final(self).next_id == old(self).next_id,
            final(self).free@ == old(self).free@,
            final(self).read_size() == old(self).read_size(),
            forall|j: int|
                0 <= j < old(self).read_size() ==> final(self).occupied(j) == old(self).occupied(j),
            forall|j: int|
                0 <= j < old(self).read_size() && old(self).occupied(j)
                    ==> (#[trigger] final(self).frame(j)).id == old(self).frame(j).id
                    && final(self).frame(j).entries@ == old(self).frame(j).entries@,
            // The frame holding `id` loses one pin (a count of zero
            // stays zero), and exactly on the one-to-zero transition
            // its slot becomes evictable; the histories are untouched.
            forall|i: int|
                0 <= i < old(self).read_size() && old(self).occupied(i) && (#[trigger] old(
                    self,
                ).frame(i)).id == id ==> {
                    &&& final(self).read@ == old(self).read@.update(
                        i,
                        Some(
                            Page {
                                pins: if old(self).frame(i).pins > 0 {
                                    (old(self).frame(i).pins - 1) as u32
                                } else {
                                    0u32
                                },
                                ..old(self).frame(i)
                            },
                        ),
                    )
                    &&& final(self).replacer.hist@ == old(self).replacer.hist@
                    &&& final(self).replacer.k == old(self).replacer.k
                    &&& final(self).replacer.now == old(self).replacer.now
                    &&& final(self).replacer.evictable@ == (if old(self).frame(i).pins == 1 {
                        old(self).replacer.evictable@.update(i, true)
                    } else {
                        old(self).replacer.evictable@
                    })
                },
            // An id not held in a read frame is left entirely alone.
            (id == old(self).current.id || forall|j: int|
                0 <= j < old(self).read_size() && old(self).occupied(j) ==> (#[trigger] old(
                    self,
                ).frame(j)).id != id) ==> *final(self) == *old(self),
    {
        match self.page_index(id) {
            Some(PageIndex::Read(i)) => {
                let slot = self.read.remove(i);
                let mut page = match slot {
                    Some(p) => p,
                    None => vstd::pervasive::unreached(),
                };
                let was_last = page.pins == 1;
                page.unpin();
                self.read.insert(i, Some(page));
                proof {
                    assert(self.read@ =~= old(self).read@.update(i as int, Some(page)));
                }
                if was_last {
                    self.replacer.set_evictable(i, true);
                }
                proof {
                    lemma_wf_slot_update(*old(self), *self, i as int, page);
                    assert forall|j: int|
                        0 <= j < old(self).read_size() && old(self).occupied(j) implies (
                    #[trigger] self.frame(j)).id == old(self).frame(j).id && self.frame(
                        j,
                    ).entries@ == old(self).frame(j).entries@ by {
                        if j != i {
                            assert(self.frame(j) == old(self).frame(j));
                        }
                    }
                    // The frame holding `id` is unique, so the located
                    // slot is the quantified one.
                    assert forall|t: int|
                        0 <= t < old(self).read_size() && old(self).occupied(t) && (#[trigger] old(
                            self,
                        ).frame(t)).id == id implies t == i as int by {
                        if t != i as int {
                            assert(old(self).frame(t).id != old(self).frame(i as int).id);
                        }
                    }
                    assert(page == (Page {
                        pins: if old(self).frame(i as int).pins > 0 {
                            (old(self).frame(i as int).pins - 1) as u32
                        } else {
                            0u32
                        },
                        ..old(self).frame(i as int)
                    }));
                }
            },
            _ => {},
        }
    }

    /// Puts a page into a frame: a free slot if any, else the
    /// replacer's victim, whose occupant is dropped (read frames are
    /// never dirty). Fails exactly when no slot is free or evictable.
    fn put_in_slot(&mut self, page: Page) -> (r: Result<usize, StoreError>)
        requires
            old(self).wf(),
            page.wf(),
            page.pins == 1,
            page.id != old(self).current.id,
            page.id < old(self).next_id,
            forall|j: int|
                0 <= j < old(self).read_size() && old(self).occupied(j) ==> (#[trigger] old(
                    self,
                ).frame(j)).id != page.id,
            old(self).disk@.contains_key(page.id),
            old(self).disk@[page.id] == page.entries@,
        ensures
            final(self).wf(),
            final(self).current == old(self).current,
            final(self).disk@ == old(self).disk@,
            final(self).next_id == old(self).next_id,
            final(self).read_size() == old(self).read_size(),
            match r {
                Ok(i) => {
                    &&& i < old(self).read_size()
                    &&& final(self).occupied(i as int)
                    &&& final(self).frame(i as int) == page
                    &&& forall|j: int|
                        0 <= j < old(self).read_size() && j != i && old(self).occupied(j)
                            ==> final(self).read@[j] == old(self).read@[j]
                    // The slot comes off the free list while one is free;
                    // only then is a victim evicted, and it is optimal
                    // under the replacer's K-distance preference.
                    &&& (if old(self).free@.len() > 0 {
                        i == old(self).free@.last() && final(self).free@ == old(
                            self,
                        ).free@.drop_last()
                    } else {
                        &&& final(self).free@ == old(self).free@
                        &&& old(self).replacer.evictable@[i as int]
                        &&& forall|j: int|
                            0 <= j < old(self).read_size() && #[trigger] old(
                                self,
                            ).replacer.evictable@[j] ==> crate::replacer::prefer(
                                (old(self).replacer.hist@[i as int])@,
                                (old(self).replacer.hist@[j])@,
                                old(self).replacer.k as nat,
                            )
                    })
                    // An access is recorded for the slot and it is not
                    // evictable while pinned.
                    &&& final(self).replacer.k == old(self).replacer.k
                    &&& (final(self).replacer.hist@[i as int])@.len() > 0
                    &&& (final(self).replacer.hist@[i as int])@.last() == old(self).replacer.now
                    &&& !final(self).replacer.evictable@[i as int]
                    &&& forall|j: int|
                        0 <= j < old(self).read_size() && j != i
                            ==> final(self).replacer.evictable@[j] == old(
                            self,
                        ).replacer.evictable@[j]
                },
                Err(e) => {
                    &&& e == StoreError::NoFreeFrame
                    &&& final(self).read@ == old(self).read@
                    &&& final(self).free@ == old(self).free@
                    &&& final(self).replacer.evictable@ == old(self).replacer.evictable@
                    &&& final(self).replacer.hist@ == old(self).replacer.hist@
                    &&& forall|j: int| 0 <= j < old(self).read_size() ==> old(self).occupied(j)
                    &&& forall|j: int|
                        0 <= j < old(self).read_size() ==> !(#[trigger] old(
                            self,
                        ).replacer.evictable@[j])
                },
            },
    {
        let n_slots = self.read.len();
        let i: usize;
        match self.free.pop() {
            Some(t) => {
                i = t;
            },
            None => {
                match self.replacer.evict() {
                    Some(v) => {
                        i = v;
                    },
                    None => {
                        proof {
                            assert forall|j: int| 0 <= j < old(self).read_size() implies old(
                                self,
                            ).occupied(j) by {
                                if !old(self).occupied(j) {
                                    assert(old(self).free@.contains(j as usize));
                                }
                            }
                            lemma_wf_views(*old(self), *self);
                        }
                        return Err(StoreError::NoFreeFrame);
                    },
                }
            },
        }
        let ghost mid = *self;
        let _evicted = self.read.remove(i);
        self.read.insert(i, Some(page));
        self.replacer.record_access(i);
        self.replacer.set_evictable(i, false);
        proof {
            assert(self.read@ =~= mid.read@.update(i as int, Some(page)));
            lemma_wf_install(*old(self), mid, *self, i as int, page);
        }
        Ok(i)
    }

    /// Loads the image of absent page `id`, as `read_page` returned it
    /// off disk, into a frame, pinned once. Fails exactly when every
    /// frame is occupied and none is evictable.
    pub fn install_page(&mut self, id: PageID, raw: &Vec<u8>) -> (r: Result<usize, StoreError>)
        requires
            old(self).wf(),
            raw@.len() <= PAGE_SIZE,
            id != old(self).current.id,
            forall|j: int|
                0 <= j < old(self).read_size() && old(self).occupied(j) ==> (#[trigger] old(
                    self,
                ).frame(j)).id != id,
            old(self).disk@.contains_key(id),
            spec_scan_from(raw@, 0).entries == old(self).disk@[id],
        ensures
            final(self).wf(),
            final(self).current == old(self).current,
            final(self).disk@ == old(self).disk@,
            final(self).next_id == old(self).next_id,
            final(self).read_size() == old(self).read_size(),
            match r {
                Ok(i) => {
                    &&& i < old(self).read_size()
                    &&& final(self).occupied(i as int)
                    &&& final(self).frame(i as int).id == id
                    &&& final(self).frame(i as int).entries@ == old(self).disk@[id]
                    &&& final(self).frame(i as int).pins == 1
                    &&& forall|j: int|
                        0 <= j < old(self).read_size() && j != i && old(self).occupied(j)
                            ==> final(self).read@[j] == old(self).read@[j]
                    &&& (if old(self).free@.len() > 0 {
                        i == old(self).free@.last() && final(self).free@ == old(
                            self,
                        ).free@.drop_last()
                    } else {
                        old(self).replacer.evictable@[i as int] && final(self).free@ == old(
                            self,
                        ).free@
                    })
                    &&& (final(self).replacer.hist@[i as int])@.len() > 0
                    &&& (final(self).replacer.hist@[i as int])@.last() == old(self).replacer.now
                    &&& !final(self).replacer.evictable@[i as int]
                    &&& forall|j: int|
                        0 <= j < old(self).read_size() && j != i
                            ==> final(self).replacer.evictable@[j] == old(
                            self,
                        ).replacer.evictable@[j]
                },
                Err(e) => {
                    &&& e == StoreError::NoFreeFrame
                    &&& final(self).read@ == old(self).read@
                    &&& final(self).free@ == old(self).free@
                    &&& final(self).replacer.evictable@ == old(self).replacer.evictable@
                    &&& final(self).replacer.hist@ == old(self).replacer.hist@
                    &&& forall|j: int| 0 <= j < old(self).read_size() ==> old(self).occupied(j)
                    &&& forall|j: int|
                        0 <= j < old(self).read_size() ==> !(#[trigger] old(
                            self,
                        ).replacer.evictable@[j])
                },
            },
    {
        let (mut page, _clean) = Page::from_bytes(id, raw);
        page.pins = 1;
        self.put_in_slot(page)
    }

    /// Allocates a fresh empty page straight into a frame, pinned once,
    /// and returns its slot together with the page's disk image, which
    /// is persisted immediately (write-through).
    pub fn new_page(&mut self) -> (r: Result<(usize, Vec<u8>), StoreError>)
        requires
            old(self).wf(),
            old(self).next_id < PageID::MAX,
        ensures
            final(self).wf(),
            final(self).current == old(self).current,
            final(self).read_size() == old(self).read_size(),
            match r {
                Ok((i, image)) => {
                    &&& i < old(self).read_size()
                    &&& final(self).occupied(i as int)
                    &&& final(self).frame(i as int).id == old(self).next_id
                    &&& final(self).frame(i as int).entries@ == Seq::<EntryModel>::empty()
                    &&& final(self).frame(i as int).pins == 1
                    &&& forall|j: int|
                        0 <= j < old(self).read_size() && j != i && old(self).occupied(j)
                            ==> final(self).read@[j] == old(self).read@[j]
                    &&& (if old(self).free@.len() > 0 {
                        i == old(self).free@.last() && final(self).free@ == old(
                            self,
                        ).free@.drop_last()
                    } else {
                        old(self).replacer.evictable@[i as int] && final(self).free@ == old(
                            self,
                        ).free@
                    })
                    &&& (final(self).replacer.hist@[i as int])@.len() > 0
                    &&& (final(self).replacer.hist@[i as int])@.last() == old(self).replacer.now
                    &&& !final(self).replacer.evictable@[i as int]
                    &&& forall|j: int|
                        0 <= j < old(self).read_size() && j != i
                            ==> final(self).replacer.evictable@[j] == old(
                            self,
                        ).replacer.evictable@[j]
                    &&& final(self).next_id == old(self).next_id + 1
                    &&& final(self).disk@ == old(self).disk@.insert(
                        old(self).next_id,
                        Seq::<EntryModel>::empty(),
                    )
                    &&& image@.len() == PAGE_SIZE
                    &&& spec_scan_from(image@, 0) == (ScanResult {
                        entries: Seq::<EntryModel>::empty(),
                        end: 0,
                        clean: true,
                    })
                },
                Err(e) => {
                    &&& e == StoreError::NoFreeFrame
                    &&& *final(self) == *old(self)
                    &&& forall|j: int| 0 <= j < old(self).read_size() ==> old(self).occupied(j)
                    &&& forall|j: int|
                        0 <= j < old(self).read_size() ==> !(#[trigger] old(
                            self,
                        ).replacer.evictable@[j])
                },
            },
    {
        if self.free.len() == 0 && !self.replacer.has_victim() {
            proof {
                assert forall|j: int| 0 <= j < old(self).read_size() implies old(self).occupied(
                    j,
                ) by {
                    if !old(self).occupied(j) {
                        assert(old(self).free@.contains(j as usize));
                    }
                }
            }
            return Err(StoreError::NoFreeFrame);
        }
        let ghost pre = *self;
        let id = self.inc_id();
        let mut page = Page::new(id);
        page.pins = 1;
        let image = page.to_disk_bytes();
        self.disk = Ghost(self.disk@.insert(id, page.entries@));
        proof {
            lemma_wf_ghost_disk(pre, *self, id, page.entries@);
        }
        let ghost mid = *self;
        proof {
            assert forall|j: int| 0 <= j < mid.read_size() && mid.occupied(j) implies (
            #[trigger] mid.frame(j)).id != id by {
                assert(pre.occupied(j));
                assert(mid.frame(j) == pre.frame(j));
                assert(pre.frame(j).id < pre.next_id);
            }
        }
        match self.put_in_slot(page) {
            Ok(i) => {
                proof {
                    assert(mid.read@ == pre.read@);
                    assert(mid.free@ == pre.free@);
                    assert(mid.replacer == pre.replacer);
                    assert(forall|j: int|
                        0 <= j < pre.read_size() ==> mid.occupied(j) == pre.occupied(j));
                }
                Ok((i, image))
            },
            Err(_) => {
                proof {
                    if pre.free@.len() > 0 {
                        assert(!mid.occupied(pre.free@[0] as int));
                        assert(false);
                    } else {
                        let j = choose|j: int|
                            0 <= j < pre.read_size() && pre.replacer.evictable@[j];
                        assert(mid.replacer.evictable@[j]);
                        assert(false);
                    }
                }
                Err(StoreError::NoFreeFrame)
            },
        }
    }

    /// Exclusive access to the current page, for appending.
    pub fn get_current(&mut self) -> (r: &mut Page)
        ensures
            *r == old(self).current,
            *final(self) == (PageManager { current: *final(r), ..*old(self) }),
    {
        &mut self.current
    }
}

/// The resident slots: frame indices that hold a page.
pub open spec fn occupied_upto(m: PageManager, n: int) -> Set<int> {
    Set::new(|i: int| 0 <= i < n && m.occupied(i))
}

/// The empty slots below `n`.
pub open spec fn unoccupied_upto(m: PageManager, n: int) -> Set<int> {
    Set::new(|i: int| 0 <= i < n && !m.occupied(i))
}

/// Occupied and empty slots count up to the slot total.
proof fn lemma_slot_partition_count(m: PageManager, n: int)
    requires
        0 <= n <= m.read_size(),
    ensures
        occupied_upto(m, n).finite(),
        unoccupied_upto(m, n).finite(),
        occupied_upto(m, n).len() + unoccupied_upto(m, n).len() == n,
    decreases n,
{
    if n == 0 {
        assert(occupied_upto(m, 0) =~= Set::<int>::empty());
        assert(unoccupied_upto(m, 0) =~= Set::<int>::empty());
    } else {
        lemma_slot_partition_count(m, n - 1);
        if m.occupied(n - 1) {
            assert(occupied_upto(m, n) =~= occupied_upto(m, n - 1).insert(n - 1));
            assert(unoccupied_upto(m, n) =~= unoccupied_upto(m, n - 1));
        } else {
            assert(occupied_upto(m, n) =~= occupied_upto(m, n - 1));
            assert(unoccupied_upto(m, n) =~= unoccupied_upto(m, n - 1).insert(n - 1));
        }
    }
}

/// Every resident page id lives in exactly one place: the current page
/// is in no read frame, and no two frames hold the same id.
pub proof fn lemma_resident_unique(m: PageManager)
    requires
        m.wf(),
    ensures
        forall|i: int|
            0 <= i < m.read_size() && m.occupied(i) ==> (#[trigger] m.frame(i)).id
                != m.current.id,
        forall|i: int, j: int|
            0 <= i < j < m.read_size() && m.occupied(i) && m.occupied(j) ==> (#[trigger] m.frame(
                i,
            )).id != (#[trigger] m.frame(j)).id,
{
}

/// The free list holds exactly the empty slots, without repetition, so
/// the free and occupied slots partition the frame array:
/// `free ∩ occupied = ∅` and `|free| + |occupied| = READ_SIZE`.
pub proof fn lemma_free_partitions_slots(m: PageManager)
    requires
        m.wf(),
        m.read_size() <= usize::MAX,
    ensures
        forall|t: int| 0 <= t < m.free@.len() ==> !m.occupied(#[trigger] m.free@[t] as int),
        forall|i: int| 0 <= i < m.read_size() ==> m.occupied(i) || m.free@.contains(i as usize),
        m.free@.no_duplicates(),
        occupied_upto(m, m.read_size()).finite(),
        m.free@.len() + occupied_upto(m, m.read_size()).len() == m.read_size(),
{
    let n = m.read_size();
    lemma_slot_partition_count(m, n);
    let fs = m.free@.map_values(|u: usize| u as int);
    assert(fs.no_duplicates()) by {
        assert forall|a: int, b: int| 0 <= a < fs.len() && 0 <= b < fs.len() && a != b implies fs[a]
            != fs[b] by {
            if a < b {
                assert(m.free@[a] != m.free@[b]);
            } else {
                assert(m.free@[b] != m.free@[a]);
            }
        }
    }
    fs.unique_seq_to_set();
    assert(fs.to_set() =~= unoccupied_upto(m, n)) by {
        assert forall|x: int| fs.to_set().contains(x) implies unoccupied_upto(m, n).contains(
            x,
        ) by {
            let t = choose|t: int| 0 <= t < fs.len() && fs[t] == x;
            assert(!m.occupied(m.free@[t] as int));
        }
        assert forall|x: int| unoccupied_upto(m, n).contains(x) implies fs.to_set().contains(
            x,
        ) by {
            assert(m.free@.contains(x as usize));
            let t = choose|t: int| 0 <= t < m.free@.len() && m.free@[t] == x as usize;
            assert(fs[t] == x);
        }
    }
    assert(m.free@.len() == fs.len());
}

/// Well-formedness carries over when every component of the state is
/// unchanged up to sequence views.
proof fn lemma_wf_views(pre: PageManager, post: PageManager)
    requires
        pre.wf(),
        post.current == pre.current,
        post.read@ == pre.read@,
        post.free@ == pre.free@,
        post.next_id == pre.next_id,
        post.disk@ == pre.disk@,
        post.replacer == pre.replacer,
    ensures
        post.wf(),
{
    assert forall|j: int| 0 <= j < post.read_size() && post.occupied(j) implies {
        &&& (#[trigger] post.frame(j)).wf()
        &&& post.frame(j).id != post.current.id
        &&& post.frame(j).id < post.next_id
        &&& post.disk@.contains_key(post.frame(j).id)
        &&& post.frame(j).entries@ == post.disk@[post.frame(j).id]
    } by {
        assert(pre.occupied(j));
        assert(post.frame(j) == pre.frame(j));
        assert(pre.frame(j).wf());
    }
    assert forall|a: int, b: int|
        0 <= a < b < post.read_size() && post.occupied(a) && post.occupied(b) implies (
    #[trigger] post.frame(a)).id != (#[trigger] post.frame(b)).id by {
        assert(post.frame(a) == pre.frame(a) && post.frame(b) == pre.frame(b));
        assert(pre.frame(a).id != pre.frame(b).id);
    }
    assert forall|t: int| 0 <= t < post.free@.len() implies 0 <= #[trigger] post.free@[t]
        < post.read_size() && !post.occupied(post.free@[t] as int) by {
        assert(0 <= pre.free@[t] < pre.read_size() && !pre.occupied(pre.free@[t] as int));
    }
    assert forall|j: int| 0 <= j < post.read_size() && !post.occupied(j) implies
        post.free@.contains(j as usize) by {
        assert(!pre.occupied(j));
        assert(pre.free@.contains(j as usize));
    }
    assert forall|j: int|
        0 <= j < post.read_size() && (#[trigger] post.replacer.evictable@[j]) implies post.occupied(
            j,
        ) && post.frame(j).pins == 0 by {
        assert(pre.replacer.evictable@[j]);
        assert(pre.occupied(j) && pre.frame(j).pins == 0);
        assert(post.frame(j) == pre.frame(j));
    }
}

/// Well-formedness carries over replacing the page in one occupied
/// frame by a page of the same id and records (only the pin count may
/// differ), with that frame's evictable bit cleared or consistent.
proof fn lemma_wf_slot_update(pre: PageManager, post: PageManager, i: int, p: Page)
    requires
        pre.wf(),
        0 <= i < pre.read_size(),
        pre.occupied(i),
        p.wf(),
        p.id == pre.frame(i).id,
        p.entries@ == pre.frame(i).entries@,
        post.read@ == pre.read@.update(i, Some(p)),
        post.free@ == pre.free@,
        post.current == pre.current,
        post.disk@ == pre.disk@,
        post.next_id == pre.next_id,
        post.replacer.wf(),
        post.replacer.slots() == pre.replacer.slots(),
        pre.replacer.slots() == pre.read_size(),
        forall|j: int|
            0 <= j < pre.read_size() && j != i ==> post.replacer.evictable@[j]
                == pre.replacer.evictable@[j],
        post.replacer.evictable@[i] ==> p.pins == 0,
    ensures
        post.wf(),
{
    assert forall|j: int| 0 <= j < post.read_size() && post.occupied(j) implies {
        &&& (#[trigger] post.frame(j)).wf()
        &&& post.frame(j).id != post.current.id
        &&& post.frame(j).id < post.next_id
        &&& post.disk@.contains_key(post.frame(j).id)
        &&& post.frame(j).entries@ == post.disk@[post.frame(j).id]
    } by {
        if j != i {
            assert(post.frame(j) == pre.frame(j));
            assert(pre.occupied(j));
            assert(pre.frame(j).wf());
        } else {
            assert(pre.frame(i).wf());
        }
    }
    assert forall|a: int, b: int|
        0 <= a < b < post.read_size() && post.occupied(a) && post.occupied(b) implies (
    #[trigger] post.frame(a)).id != (#[trigger] post.frame(b)).id by {
        assert(pre.occupied(a) && pre.occupied(b));
        assert(pre.frame(a).id != pre.frame(b).id);
        assert(post.frame(a).id == pre.frame(a).id && post.frame(b).id == pre.frame(b).id);
    }
    assert forall|t: int| 0 <= t < post.free@.len() implies 0 <= #[trigger] post.free@[t]
        < post.read_size() && !post.occupied(post.free@[t] as int) by {
        assert(0 <= pre.free@[t] < pre.read_size() && !pre.occupied(pre.free@[t] as int));
        assert(pre.free@[t] != i);
    }
    assert forall|j: int| 0 <= j < post.read_size() && !post.occupied(j) implies
        post.free@.contains(j as usize) by {
        assert(!pre.occupied(j));
        assert(pre.free@.contains(j as usize));
    }
    assert forall|j: int|
        0 <= j < post.read_size() && (#[trigger] post.replacer.evictable@[j]) implies post.occupied(
            j,
        ) && post.frame(j).pins == 0 by {
        if j != i {
            assert(pre.replacer.evictable@[j]);
            assert(pre.occupied(j) && pre.frame(j).pins == 0);
            assert(post.frame(j) == pre.frame(j));
        }
    }
}

/// Well-formedness carries over recording one more page image in the
/// ghost disk, provided its id stays below the id allocator.
proof fn lemma_wf_ghost_disk(pre: PageManager, post: PageManager, id: PageID, es: Seq<EntryModel>)
    requires
        pre.wf(),
        post.read@ == pre.read@,
        post.free@ == pre.free@,
        post.replacer == pre.replacer,
        post.current == pre.current,
        pre.next_id <= post.next_id,
        post.current.id < post.next_id,
        id < post.next_id,
        post.disk@ == pre.disk@.insert(id, es),
        forall|j: int|
            0 <= j < pre.read_size() && pre.occupied(j) ==> (#[trigger] pre.frame(j)).id != id,
    ensures
        post.wf(),
{
    assert forall|j: int| 0 <= j < post.read_size() && post.occupied(j) implies {
        &&& (#[trigger] post.frame(j)).wf()
        &&& post.frame(j).id != post.current.id
        &&& post.frame(j).id < post.next_id
        &&& post.disk@.contains_key(post.frame(j).id)
        &&& post.frame(j).entries@ == post.disk@[post.frame(j).id]
    } by {
        assert(pre.occupied(j));
        assert(post.frame(j) == pre.frame(j));
        assert(pre.frame(j).wf());
        assert(pre.frame(j).id != id);
    }
    assert forall|a: int, b: int|
        0 <= a < b < post.read_size() && post.occupied(a) && post.occupied(b) implies (
    #[trigger] post.frame(a)).id != (#[trigger] post.frame(b)).id by {
        assert(post.frame(a) == pre.frame(a) && post.frame(b) == pre.frame(b));
        assert(pre.frame(a).id != pre.frame(b).id);
    }
    assert forall|t: int| 0 <= t < post.free@.len() implies 0 <= #[trigger] post.free@[t]
        < post.read_size() && !post.occupied(post.free@[t] as int) by {
        assert(0 <= pre.free@[t] < pre.read_size() && !pre.occupied(pre.free@[t] as int));
    }
    assert forall|j: int| 0 <= j < post.read_size() && !post.occupied(j) implies
        post.free@.contains(j as usize) by {
        assert(!pre.occupied(j));
        assert(pre.free@.contains(j as usize));
    }
    assert forall|j: int|
        0 <= j < post.read_size() && (#[trigger] post.replacer.evictable@[j]) implies post.occupied(
            j,
        ) && post.frame(j).pins == 0 by {
        assert(pre.replacer.evictable@[j]);
        assert(pre.occupied(j) && pre.frame(j).pins == 0);
        assert(post.frame(j) == pre.frame(j));
    }
}

/// Well-formedness carries over installing a page into a slot taken
/// from the free list or from the replacer's victim. `pre` is the
/// state before the slot was taken, `mid` the state after the free
/// list or replacer gave it up, `post` the state with the page in
/// place and its access recorded.
proof fn lemma_wf_install(pre: PageManager, mid: PageManager, post: PageManager, i: int, p: Page)
    requires
        pre.wf(),
        pre.read_size() <= usize::MAX,
        0 <= i < pre.read_size(),
        p.wf(),
        p.id != pre.current.id,
        p.id < pre.next_id,
        forall|j: int|
            0 <= j < pre.read_size() && pre.occupied(j) ==> (#[trigger] pre.frame(j)).id != p.id,
        pre.disk@.contains_key(p.id),
        pre.disk@[p.id] == p.entries@,
        mid.current == pre.current,
        mid.read@ == pre.read@,
        mid.disk@ == pre.disk@,
        mid.next_id == pre.next_id,
        mid.replacer.wf(),
        mid.replacer.slots() == pre.replacer.slots(),
        pre.replacer.slots() == pre.read_size(),
        // The slot came off the free list (then it was the free list's
        // last element) or from the replacer (then the free list is
        // unchanged and the victim's evictable bit was cleared).
        (pre.free@.len() > 0 && mid.free@ == pre.free@.drop_last() && i == pre.free@.last()
            && mid.replacer.evictable@ == pre.replacer.evictable@) || (mid.free@ == pre.free@
            && pre.replacer.evictable@[i] && mid.replacer.evictable@
            == pre.replacer.evictable@.update(i, false) && forall|j: int|
            0 <= j < pre.read_size() && j != i ==> mid.replacer.hist@[j]
                == pre.replacer.hist@[j]),
        post.current == mid.current,
        post.disk@ == mid.disk@,
        post.next_id == mid.next_id,
        post.free@ == mid.free@,
        post.read@ == mid.read@.update(i, Some(p)),
        post.replacer.wf(),
        post.replacer.slots() == mid.replacer.slots(),
        forall|j: int|
            0 <= j < pre.read_size() && j != i ==> post.replacer.evictable@[j]
                == mid.replacer.evictable@[j],
        !post.replacer.evictable@[i],
    ensures
        post.wf(),
{
    assert forall|j: int| 0 <= j < post.read_size() && post.occupied(j) implies {
        &&& (#[trigger] post.frame(j)).wf()
        &&& post.frame(j).id != post.current.id
        &&& post.frame(j).id < post.next_id
        &&& post.disk@.contains_key(post.frame(j).id)
        &&& post.frame(j).entries@ == post.disk@[post.frame(j).id]
    } by {
        if j != i {
            assert(post.frame(j) == pre.frame(j));
            assert(pre.occupied(j));
            assert(pre.frame(j).wf());
        }
    }
    assert forall|a: int, b: int|
        0 <= a < b < post.read_size() && post.occupied(a) && post.occupied(b) implies (
    #[trigger] post.frame(a)).id != (#[trigger] post.frame(b)).id by {
        if a != i && b != i {
            assert(pre.occupied(a) && pre.occupied(b));
            assert(pre.frame(a).id != pre.frame(b).id);
            assert(post.frame(a) == pre.frame(a) && post.frame(b) == pre.frame(b));
        } else if a == i {
            assert(pre.occupied(b));
            assert(pre.frame(b).id != p.id);
            assert(post.frame(b) == pre.frame(b));
        } else {
            assert(pre.occupied(a));
            assert(pre.frame(a).id != p.id);
            assert(post.frame(a) == pre.frame(a));
        }
    }
    if pre.free@.len() > 0 && mid.free@ == pre.free@.drop_last() && i == pre.free@.last() {
        assert forall|t: int| 0 <= t < post.free@.len() implies 0 <= #[trigger] post.free@[t]
            < post.read_size() && !post.occupied(post.free@[t] as int) by {
            assert(post.free@[t] == pre.free@[t]);
            assert(0 <= pre.free@[t] < pre.read_size() && !pre.occupied(pre.free@[t] as int));
            assert(pre.free@[t] != pre.free@[pre.free@.len() - 1]);
        }
        assert forall|j: int| 0 <= j < post.read_size() && !post.occupied(j) implies
            post.free@.contains(j as usize) by {
            assert(j != i);
            assert(!pre.occupied(j));
            assert(pre.free@.contains(j as usize));
            let t = choose|t: int| 0 <= t < pre.free@.len() && pre.free@[t] == j as usize;
            assert(t != pre.free@.len() - 1);
            assert(post.free@[t] == j as usize);
        }
    } else {
        assert(mid.free@ == pre.free@);
        assert forall|t: int| 0 <= t < post.free@.len() implies 0 <= #[trigger] post.free@[t]
            < post.read_size() && !post.occupied(post.free@[t] as int) by {
            assert(0 <= pre.free@[t] < pre.read_size() && !pre.occupied(pre.free@[t] as int));
            assert(pre.replacer.evictable@[i]);
            assert(pre.occupied(i));
            assert(pre.free@[t] != i);
        }
        assert forall|j: int| 0 <= j < post.read_size() && !post.occupied(j) implies
            post.free@.contains(j as usize) by {
            assert(j != i);
            assert(!pre.occupied(j));
            assert(pre.free@.contains(j as usize));
        }
    }
    assert forall|j: int|
        0 <= j < post.read_size() && (#[trigger] post.replacer.evictable@[j]) implies post.occupied(
            j,
        ) && post.frame(j).pins == 0 by {
        assert(j != i);
        assert(mid.replacer.evictable@[j]);
        assert(pre.replacer.evictable@[j]);
        assert(pre.occupied(j) && pre.frame(j).pins == 0);
        assert(post.frame(j) == pre.frame(j));
    }
}

/// Well-formedness carries over a write to the current page: only the
/// current page's contents change; its id and all other state stay.
proof fn lemma_wf_current(pre: PageManager, post: PageManager)
    requires
        pre.wf(),
        post.read@ == pre.read@,
        post.free@ == pre.free@,
        post.replacer == pre.replacer,
        post.disk@ == pre.disk@,
        post.next_id == pre.next_id,
        post.current.wf(),
        post.current.id == pre.current.id,
    ensures
        post.wf(),
{
    assert forall|i: int| 0 <= i < post.read_size() && post.occupied(i) implies {
        &&& (#[trigger] post.frame(i)).wf()
        &&& post.frame(i).id != post.current.id
        &&& post.frame(i).id < post.next_id
        &&& post.disk@.contains_key(post.frame(i).id)
        &&& post.frame(i).entries@ == post.disk@[post.frame(i).id]
    } by {
        assert(pre.occupied(i));
        assert(post.frame(i) == pre.frame(i));
        assert(pre.frame(i).wf());
    }
    assert forall|i: int, j: int|
        0 <= i < j < post.read_size() && post.occupied(i) && post.occupied(j) implies (
    #[trigger] post.frame(i)).id != (#[trigger] post.frame(j)).id by {
        assert(post.frame(i) == pre.frame(i) && post.frame(j) == pre.frame(j));
        assert(pre.frame(i).id != pre.frame(j).id);
    }
    assert forall|t: int| 0 <= t < post.free@.len() implies 0 <= #[trigger] post.free@[t]
        < post.read_size() && !post.occupied(post.free@[t] as int) by {
        assert(0 <= pre.free@[t] < pre.read_size() && !pre.occupied(pre.free@[t] as int));
    }
    assert forall|i: int| 0 <= i < post.read_size() && !post.occupied(i) implies
        post.free@.contains(i as usize) by {
        assert(!pre.occupied(i));
        assert(pre.free@.contains(i as usize));
        assert(post.free@ == pre.free@);
    }
    assert forall|i: int|
        0 <= i < post.read_size() && (#[trigger] post.replacer.evictable@[i]) implies post.occupied(
            i,
        ) && post.frame(i).pins == 0 by {
        assert(pre.replacer.evictable@[i]);
        assert(pre.occupied(i) && pre.frame(i).pins == 0);
        assert(post.frame(i) == pre.frame(i));
    }
}

/// Well-formedness carries over a flush or rotation: the frames, free
/// list and replacer are untouched, the old current page's records are
/// recorded as its disk copy, and the current page either stays or is
/// replaced by a well-formed page of the next id.
proof fn lemma_wf_rotate(pre: PageManager, post: PageManager)
    requires
        pre.wf(),
        post.read@ == pre.read@,
        post.free@ == pre.free@,
        post.replacer == pre.replacer,
        post.current.wf(),
        post.disk@ == pre.disk@.insert(pre.current.id, pre.current.entries@),
        post.current.id == pre.current.id || (post.current.id == pre.next_id && pre.next_id
            < PageID::MAX),
        pre.next_id <= post.next_id,
        post.current.id < post.next_id,
    ensures
        post.wf(),
{
    assert forall|i: int| 0 <= i < post.read_size() && post.occupied(i) implies {
        &&& (#[trigger] post.frame(i)).wf()
        &&& post.frame(i).id != post.current.id
        &&& post.frame(i).id < post.next_id
        &&& post.disk@.contains_key(post.frame(i).id)
        &&& post.frame(i).entries@ == post.disk@[post.frame(i).id]
    } by {
        assert(pre.occupied(i));
        assert(post.frame(i) == pre.frame(i));
        assert(pre.frame(i).wf());
        assert(pre.frame(i).id != pre.current.id);
        assert(pre.disk@.contains_key(pre.frame(i).id));
    }
    assert forall|i: int, j: int|
        0 <= i < j < post.read_size() && post.occupied(i) && post.occupied(j) implies (
    #[trigger] post.frame(i)).id != (#[trigger] post.frame(j)).id by {
        assert(post.frame(i) == pre.frame(i) && post.frame(j) == pre.frame(j));
        assert(pre.frame(i).id != pre.frame(j).id);
    }
    assert forall|t: int| 0 <= t < post.free@.len() implies 0 <= #[trigger] post.free@[t]
        < post.read_size() && !post.occupied(post.free@[t] as int) by {
        assert(0 <= pre.free@[t] < pre.read_size() && !pre.occupied(pre.free@[t] as int));
    }
    assert forall|i: int| 0 <= i < post.read_size() && !post.occupied(i) implies
        post.free@.contains(i as usize) by {
        assert(!pre.occupied(i));
        assert(pre.free@.contains(i as usize));
        assert(post.free@ == pre.free@);
    }
    assert forall|i: int|
        0 <= i < post.read_size() && (#[trigger] post.replacer.evictable@[i]) implies post.occupied(
            i,
        ) && post.frame(i).pins == 0 by {
        assert(pre.replacer.evictable@[i]);
        assert(pre.occupied(i) && pre.frame(i).pins == 0);
        assert(post.frame(i) == pre.frame(i));
    }
}

/// After appending `m` to a well-formed page previously holding `es`,
/// the record parses back at its offset `enc_all(es).len()`.
proof fn lemma_parse_last(p: Page, es: Seq<EntryModel>, m: EntryModel)
    requires
        p.wf(),
        m.wf(),
        p.entries@ == es.push(m),
    ensures
        spec_parse_at(p.bytes(), enc_all(es).len() as int) == ParseModel::PEntry(m),
{
    lemma_enc_all_push(es, m);
    let off = enc_all(es).len() as int;
    assert(p.bytes() =~= enc_all(es) + m.enc());
    assert forall|j: int| 0 <= j < m.size() implies p.bytes().subrange(off, off + m.size())[j]
        == m.enc()[j] by {
        assert(p.bytes()[off + j] == (enc_all(es) + m.enc())[off + j]);
    }
    assert(p.bytes().subrange(off, off + m.size()) =~= m.enc());
    lemma_parse_enc(p.bytes(), off, m);
}

} // verus!
