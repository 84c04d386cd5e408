//! The key directory: an in-memory map from each live key to the
//! location of its newest record.

use vstd::prelude::*;

use crate::entry::{Entry, EntryModel};
use crate::page::PageID;

verus! {

use vstd::pervasive::VecAdditionalExecFns;

/// Where a key's newest record lives: the owning page, the record's
/// offset in that page, the value's length, and the record's timestamp.
#[derive(Clone, Copy, Debug, PartialEq, Eq, Structural)]
pub struct KeyData {
    pub page: PageID,
    pub offset: u64,
    pub value_len: u64,
    pub time: u64,
}

/// The map a sequence of key/location pairs denotes, later pairs
/// winning.
pub open spec fn pairs_map(s: Seq<(Vec<u8>, KeyData)>) -> Map<Seq<u8>, KeyData>
    decreases s.len(),
{
    if s.len() == 0 {
        Map::empty()
    } else {
        pairs_map(s.drop_last()).insert(s.last().0@, s.last().1)
    }
}

/// No two pairs share a key.
pub open spec fn unique_keys(s: Seq<(Vec<u8>, KeyData)>) -> bool {
    forall|i: int, j: int| 0 <= i < j < s.len() ==> (#[trigger] s[i]).0@ != (#[trigger] s[j]).0@
}

/// A key is in the denoted map exactly when some pair carries it.
pub proof fn lemma_pairs_map_dom(s: Seq<(Vec<u8>, KeyData)>, k: Seq<u8>)
    ensures
        pairs_map(s).contains_key(k) <==> exists|i: int|
            0 <= i < s.len() && (#[trigger] s[i]).0@ == k,
    decreases s.len(),
{
    if s.len() > 0 {
        lemma_pairs_map_dom(s.drop_last(), k);
        if pairs_map(s).contains_key(k) {
            if s.last().0@ != k {
                let i = choose|i: int| 0 <= i < s.len() - 1 && (#[trigger] s.drop_last()[i]).0@
                    == k;
                assert(s[i].0@ == k);
            }
        }
        if exists|i: int| 0 <= i < s.len() && (#[trigger] s[i]).0@ == k {
            let i = choose|i: int| 0 <= i < s.len() && (#[trigger] s[i]).0@ == k;
            if i < s.len() - 1 {
                assert(s.drop_last()[i].0@ == k);
            }
        }
    }
}

/// With unique keys, the denoted map sends each pair's key to its data.
pub proof fn lemma_pairs_map_at(s: Seq<(Vec<u8>, KeyData)>, i: int)
    requires
        unique_keys(s),
        0 <= i < s.len(),
    ensures
        pairs_map(s).contains_key(s[i].0@),
        pairs_map(s)[s[i].0@] == s[i].1,
    decreases s.len(),
{
    if i == s.len() - 1 {
    } else {
        assert(unique_keys(s.drop_last()));
        lemma_pairs_map_at(s.drop_last(), i);
        assert(s.drop_last()[i] == s[i]);
        assert(s[i].0@ != s.last().0@);
    }
}

/// The in-memory key directory.
pub struct KeyDir {
    pairs: Vec<(Vec<u8>, KeyData)>,
}

impl View for KeyDir {
    type V = Map<Seq<u8>, KeyData>;

    closed spec fn view(&self) -> Map<Seq<u8>, KeyData> {
        pairs_map(self.pairs@)
    }
}

/// Whether two byte strings are equal.
pub fn bytes_eq(a: &Vec<u8>, b: &Vec<u8>) -> (r: bool)
    ensures
        r == (a@ == b@),
{
    if a.len() != b.len() {
        return false;
    }
    let n = a.len();
    let mut i: usize = 0;
    while i < n
        invariant
            i <= n,
            n == a@.len() == b@.len(),
            forall|j: int| 0 <= j < i ==> a@[j] == b@[j],
        decreases n - i,
    {
        if a[i] != b[i] {
            return false;
        }
        i = i + 1;
    }
    proof {
        assert(a@ =~= b@);
    }
    true
}

impl KeyDir {
    /// Every key appears in at most one pair.
    pub closed spec fn wf(self) -> bool {
        unique_keys(self.pairs@)
    }

    /// An empty directory.
    pub fn new() -> (r: Self)
        ensures
            r.wf(),
            r@ == Map::<Seq<u8>, KeyData>::empty(),
    {
        KeyDir { pairs: Vec::new() }
    }

    /// Index of the pair carrying `key`, if any.
    fn find(&self, key: &Vec<u8>) -> (r: Option<usize>)
        ensures
            match r {
                Some(i) => i < self.pairs@.len() && self.pairs@[i as int].0@ == key@,
                None => forall|j: int| 0 <= j < self.pairs@.len() ==> (
                #[trigger] self.pairs@[j]).0@ != key@,
            },
    {
        let n = self.pairs.len();
        let mut i: usize = 0;
        while i < n
            invariant
                i <= n,
                n == self.pairs@.len(),
                forall|j: int| 0 <= j < i ==> (#[trigger] self.pairs@[j]).0@ != key@,
            decreases n - i,
        {
            if bytes_eq(&self.pairs[i].0, key) {
                return Some(i);
            }
            i = i + 1;
        }
        None
    }

    /// Looks up the location of `key`'s newest record.
    pub fn get(&self, key: &Vec<u8>) -> (r: Option<KeyData>)
        requires
            self.wf(),
        ensures
            match r {
                Some(kd) => self@.contains_key(key@) && self@[key@] == kd,
                None => !self@.contains_key(key@),
            },
    {
        match self.find(key) {
            Some(i) => {
                proof {
                    lemma_pairs_map_at(self.pairs@, i as int);
                }
                Some(self.pairs[i].1)
            },
            None => {
                proof {
                    lemma_pairs_map_dom(self.pairs@, key@);
                }
                None
            },
        }
    }

    /// Records `key`'s newest location, replacing any previous one.
    pub fn insert(&mut self, key: Vec<u8>, kd: KeyData)
        requires
            old(self).wf(),
        ensures
            final(self).wf(),
            final(self)@ == old(self)@.insert(key@, kd),
    {
        match self.find(&key) {
            Some(i) => {
                let ghost pre = self.pairs@;
                self.pairs.set(i, (key, kd));
                proof {
                    lemma_update_is_insert(pre, i as int, self.pairs@[i as int]);
                }
            },
            None => {
                let ghost pre = self.pairs@;
                proof {
                    lemma_pairs_map_dom(pre, key@);
                }
                self.pairs.push((key, kd));
                proof {
                    assert(self.pairs@.drop_last() =~= pre);
                }
            },
        }
        proof {
            assert(self@ =~= old(self)@.insert(key@, kd));
        }
    }

    /// Removes `key`; absent keys are left as they are.
    pub fn remove(&mut self, key: &Vec<u8>)
        requires
            old(self).wf(),
        ensures
            final(self).wf(),
            final(self)@ == old(self)@.remove(key@),
    {
        match self.find(key) {
            Some(i) => {
                let ghost pre = self.pairs@;
                let _ = self.pairs.remove(i);
                proof {
                    lemma_remove_is_remove(pre, i as int);
                    assert(self.pairs@ =~= pre.remove(i as int));
                }
            },
            None => {
                proof {
                    lemma_pairs_map_dom(self.pairs@, key@);
                    assert(old(self)@.remove(key@) =~= old(self)@);
                }
            },
        }
        proof {
            assert(self@ =~= old(self)@.remove(key@));
        }
    }
}

/// How one replayed record changes the key directory during bootstrap:
/// a put claims its key when it is strictly newer than the recorded
/// entry or the key is new; a delete drops the key when it is strictly
/// newer.
pub open spec fn apply_entry(
    m: Map<Seq<u8>, KeyData>,
    e: EntryModel,
    page: PageID,
    off: u64,
) -> Map<Seq<u8>, KeyData> {
    if !e.delete {
        if !m.contains_key(e.key) || m[e.key].time < e.time {
            m.insert(
                e.key,
                KeyData { page, offset: off, value_len: e.value.len() as u64, time: e.time },
            )
        } else {
            m
        }
    } else {
        if m.contains_key(e.key) && m[e.key].time < e.time {
            m.remove(e.key)
        } else {
            m
        }
    }
}

impl Entry {
    /// Replays this record, found at offset `self.pos` of page `page`,
    /// into the key directory under the bootstrap upsert rule.
    pub fn add_to_key_dir(&self, key_dir: &mut KeyDir, page: PageID)
        requires
            old(key_dir).wf(),
            self.wf_sizes(),
        ensures
            final(key_dir).wf(),
            final(key_dir)@ == apply_entry(old(key_dir)@, self@, page, self.pos),
    {
        match key_dir.get(&self.key) {
            Some(kd) => {
                if kd.time < self.time {
                    if self.delete {
                        key_dir.remove(&self.key);
                    } else {
                        let key = crate::entry::vec_subrange(&self.key, 0, self.key.len());
                        proof {
                            assert(key@ =~= self.key@);
                        }
                        key_dir.insert(
                            key,
                            KeyData {
                                page,
                                offset: self.pos,
                                value_len: self.value_s,
                                time: self.time,
                            },
                        );
                    }
                }
            },
            None => {
                if !self.delete {
                    let key = crate::entry::vec_subrange(&self.key, 0, self.key.len());
                    proof {
                        assert(key@ =~= self.key@);
                    }
                    key_dir.insert(
                        key,
                        KeyData {
                            page,
                            offset: self.pos,
                            value_len: self.value_s,
                            time: self.time,
                        },
                    );
                }
            },
        }
    }
}

/// Replacing the pair at a unique key updates just that key in the
/// denoted map.
proof fn lemma_update_is_insert(s: Seq<(Vec<u8>, KeyData)>, i: int, p: (Vec<u8>, KeyData))
    requires
        unique_keys(s),
        0 <= i < s.len(),
        p.0@ == s[i].0@,
    ensures
        unique_keys(s.update(i, p)),
        pairs_map(s.update(i, p)) =~= pairs_map(s).insert(p.0@, p.1),
    decreases s.len(),
{
    if i == s.len() - 1 {
        assert(s.update(i, p).drop_last() =~= s.drop_last());
    } else {
        assert(unique_keys(s.drop_last()));
        lemma_update_is_insert(s.drop_last(), i, p);
        assert(s.update(i, p).drop_last() =~= s.drop_last().update(i, p));
        assert(s.update(i, p).last() == s.last());
        lemma_pairs_map_dom(s.drop_last(), s.last().0@);
        assert(s[i].0@ != s.last().0@);
    }
}

/// Removing the pair at a unique key removes just that key from the
/// denoted map.
proof fn lemma_remove_is_remove(s: Seq<(Vec<u8>, KeyData)>, i: int)
    requires
        unique_keys(s),
        0 <= i < s.len(),
    ensures
        unique_keys(s.remove(i)),
        pairs_map(s.remove(i)) =~= pairs_map(s).remove(s[i].0@),
    decreases s.len(),
{
    if i == s.len() - 1 {
        assert(s.remove(i) =~= s.drop_last());
        lemma_pairs_map_dom(s.drop_last(), s.last().0@);
        assert(forall|j: int| 0 <= j < s.len() - 1 ==> (#[trigger] s.drop_last()[j]).0@ != s.last().0@);
        assert(pairs_map(s.drop_last()) =~= pairs_map(s.drop_last()).insert(
            s.last().0@,
            s.last().1,
        ).remove(s.last().0@));
    } else {
        assert(unique_keys(s.drop_last()));
        lemma_remove_is_remove(s.drop_last(), i);
        assert(s.remove(i).drop_last() =~= s.drop_last().remove(i));
        assert(s.remove(i).last() == s.last());
        assert(s[i].0@ != s.last().0@);
    }
}

} // verus!
