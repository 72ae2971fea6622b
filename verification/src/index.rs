//! The key directory: an ordered map from key to the place of its latest
//! put record.

use vstd::prelude::*;
use vstd::slice::slice_to_vec;
use crate::disk::DiskTable;
use crate::io::WriteExt;
use crate::reader::{entry_views, scan_segment, EntryReader, EntryView, IndexReader};
use crate::snapshot::{after, parse_snapshot, parse_snapshot_body, snapshot_bytes, snapshot_entry};
use crate::util::{has_index_header, index_header, INDEX_HEADER_LEN};
use crate::order::{
    key_within, lemma_lex_irreflexive, lemma_lex_total, lemma_lex_transitive, lex_lt, rank_keys,
    within, Bound, KeyBound, Rank,
};

verus! {

/// Where one record lies: the segment, the byte range in it, and the
/// record's timestamp.
#[derive(Debug, Clone, Copy, PartialEq, Eq, Structural)]
pub struct Entry {
    pub file: u64,
    pub timestamp: u64,
    pub offset: u64,
    pub size: u64,
}

impl Entry {
    pub fn from(timestamp: u64, file: u64, offset: u64, size: u64) -> (entry: Self)
        ensures
            entry == (Entry { file, timestamp, offset, size }),
    {
        Self { timestamp, file, offset, size }
    }

    pub fn timestamp(&self) -> (timestamp: u64)
        ensures
            timestamp == self.timestamp,
    {
        self.timestamp
    }

    pub fn file(&self) -> (file: u64)
        ensures
            file == self.file,
    {
        self.file
    }

    pub fn offset(&self) -> (offset: u64)
        ensures
            offset == self.offset,
    {
        self.offset
    }

    pub fn size(&self) -> (size: u64)
        ensures
            size == self.size,
    {
        self.size
    }
}

/// The directory written out: its keys with their entries.
pub type Listing = Seq<(Seq<u8>, Entry)>;

/// The keys of `l` ascend strictly.
pub open spec fn ascending(l: Listing) -> bool {
    forall|i: int, j: int| 0 <= i < j < l.len() ==> lex_lt(#[trigger] l[i].0, #[trigger] l[j].0)
}

/// `l` has an entry for `key`.
pub open spec fn lists(l: Listing, key: Seq<u8>) -> bool {
    exists|i: int| 0 <= i < l.len() && #[trigger] l[i].0 == key
}

/// A place in `l` where `key` stands, if it stands anywhere.
pub open spec fn place(l: Listing, key: Seq<u8>) -> int {
    choose|i: int| 0 <= i < l.len() && #[trigger] l[i].0 == key
}

/// The map that `l` lists.
pub open spec fn listed(l: Listing) -> Map<Seq<u8>, Entry> {
    Map::new(|key: Seq<u8>| lists(l, key), |key: Seq<u8>| l[place(l, key)].1)
}

/// `l` lists exactly `m`, in ascending order of the keys.
pub open spec fn is_listing(l: Listing, m: Map<Seq<u8>, Entry>) -> bool {
    ascending(l) && listed(l) == m
}

/// In an ascending listing every key stands at one place only, and the
/// listed map holds what stands there.
pub proof fn lemma_listed_at(l: Listing, i: int)
    requires
        ascending(l),
        0 <= i < l.len(),
    ensures
        lists(l, l[i].0),
        place(l, l[i].0) == i,
        listed(l).contains_key(l[i].0),
        listed(l)[l[i].0] == l[i].1,
{
    let key = l[i].0;
    let p = place(l, key);
    lemma_lex_irreflexive(key);
    if p < i {
        assert(lex_lt(l[p].0, l[i].0));
    } else if i < p {
        assert(lex_lt(l[i].0, l[p].0));
    }
}

/// Putting `(key, entry)` in at the place that the order gives it lists
/// the map with `key` set to `entry`.
pub proof fn lemma_listing_insert(l: Listing, p: int, key: Seq<u8>, entry: Entry)
    requires
        ascending(l),
        0 <= p <= l.len(),
        forall|i: int| 0 <= i < p ==> lex_lt(#[trigger] l[i].0, key),
        forall|i: int| p <= i < l.len() ==> lex_lt(key, #[trigger] l[i].0),
    ensures
        ascending(l.insert(p, (key, entry))),
        listed(l.insert(p, (key, entry))) == listed(l).insert(key, entry),
        !lists(l, key),
{
    let l2 = l.insert(p, (key, entry));
    assert forall|i: int, j: int| 0 <= i < j < l2.len() implies lex_lt(
        #[trigger] l2[i].0,
        #[trigger] l2[j].0,
    ) by {
        let a = if i < p { i } else { i - 1 };
        let b = if j < p { j } else { j - 1 };
        if i == p {
            assert(l2[j] == l[b]);
        } else if j == p {
            assert(l2[i] == l[a]);
        } else {
            assert(l2[i] == l[a]);
            assert(l2[j] == l[b]);
        }
    }
    lemma_lex_irreflexive(key);
    assert(!lists(l, key));
    assert(l2[p] == (key, entry));
    lemma_listed_at(l2, p);
    assert forall|k: Seq<u8>| listed(l2).contains_key(k) == listed(l).insert(
        key,
        entry,
    ).contains_key(k) by {
        if lists(l2, k) {
            let i = place(l2, k);
            if i != p {
                let a = if i < p { i } else { i - 1 };
                assert(l2[i] == l[a]);
                assert(lists(l, k));
            }
        }
        if lists(l, k) {
            let a = place(l, k);
            let i = if a < p { a } else { a + 1 };
            assert(l2[i] == l[a]);
            assert(lists(l2, k));
        }
    }
    assert forall|k: Seq<u8>| listed(l2).contains_key(k) implies listed(l2)[k] == listed(l).insert(
        key,
        entry,
    )[k] by {
        let i = place(l2, k);
        if i != p {
            let a = if i < p { i } else { i - 1 };
            assert(l2[i] == l[a]);
            lemma_listed_at(l, a);
        }
    }
    assert(listed(l2) =~= listed(l).insert(key, entry));
}

/// Changing the entry at a place lists the map with that key set anew.
pub proof fn lemma_listing_update(l: Listing, p: int, entry: Entry)
    requires
        ascending(l),
        0 <= p < l.len(),
    ensures
        ascending(l.update(p, (l[p].0, entry))),
        listed(l.update(p, (l[p].0, entry))) == listed(l).insert(l[p].0, entry),
{
    let key = l[p].0;
    let l2 = l.update(p, (key, entry));
    assert forall|i: int, j: int| 0 <= i < j < l2.len() implies lex_lt(
        #[trigger] l2[i].0,
        #[trigger] l2[j].0,
    ) by {
        assert(l2[i].0 == l[i].0);
        assert(l2[j].0 == l[j].0);
    }
    lemma_listed_at(l2, p);
    assert forall|k: Seq<u8>| listed(l2).contains_key(k) == listed(l).insert(
        key,
        entry,
    ).contains_key(k) by {
        if lists(l2, k) {
            let i = place(l2, k);
            assert(l2[i].0 == l[i].0);
            assert(lists(l, k));
        }
        if lists(l, k) {
            let i = place(l, k);
            assert(l2[i].0 == l[i].0);
            assert(lists(l2, k));
        }
        assert(l[p].0 == key);
    }
    assert forall|k: Seq<u8>| listed(l2).contains_key(k) implies listed(l2)[k] == listed(l).insert(
        key,
        entry,
    )[k] by {
        let i = place(l2, k);
        assert(l2[i].0 == l[i].0);
        lemma_listed_at(l, i);
        lemma_listed_at(l2, i);
    }
    assert(listed(l2) =~= listed(l).insert(key, entry));
}

/// Taking a place out lists the map without that key.
pub proof fn lemma_listing_remove(l: Listing, p: int)
    requires
        ascending(l),
        0 <= p < l.len(),
    ensures
        ascending(l.remove(p)),
        listed(l.remove(p)) == listed(l).remove(l[p].0),
{
    let key = l[p].0;
    let l2 = l.remove(p);
    assert forall|i: int, j: int| 0 <= i < j < l2.len() implies lex_lt(
        #[trigger] l2[i].0,
        #[trigger] l2[j].0,
    ) by {
        let a = if i < p { i } else { i + 1 };
        let b = if j < p { j } else { j + 1 };
        assert(l2[i] == l[a]);
        assert(l2[j] == l[b]);
    }
    lemma_listed_at(l, p);
    assert forall|k: Seq<u8>| listed(l2).contains_key(k) == listed(l).remove(key).contains_key(
        k,
    ) by {
        if lists(l2, k) {
            let i = place(l2, k);
            let a = if i < p { i } else { i + 1 };
            assert(l2[i] == l[a]);
            assert(lists(l, k));
            lemma_listed_at(l, a);
        }
        if lists(l, k) && k != key {
            let a = place(l, k);
            let i = if a < p { a } else { a - 1 };
            assert(l2[i] == l[a]);
            assert(lists(l2, k));
        }
    }
    assert forall|k: Seq<u8>| listed(l2).contains_key(k) implies listed(l2)[k] == listed(l).remove(
        key,
    )[k] by {
        let i = place(l2, k);
        let a = if i < p { i } else { i + 1 };
        assert(l2[i] == l[a]);
        lemma_listed_at(l, a);
        lemma_listed_at(l2, i);
    }
    assert(listed(l2) =~= listed(l).remove(key));
}

/// Two ascending listings of one map are the same listing.
pub proof fn lemma_listing_unique(a: Listing, b: Listing)
    requires
        ascending(a),
        ascending(b),
        listed(a) == listed(b),
    ensures
        a == b,
    decreases a.len(),
{
    if a.len() == 0 {
        if b.len() > 0 {
            lemma_listed_at(b, 0);
            assert(listed(a).contains_key(b[0].0));
        }
        assert(a =~= b);
    } else {
        let n = a.len() - 1;
        lemma_listed_at(a, n);
        assert(lists(b, a[n].0));
        let q = place(b, a[n].0);
        lemma_listed_at(b, q);
        let m = b.len() - 1;
        lemma_listed_at(b, m);
        assert(lists(a, b[m].0));
        let r = place(a, b[m].0);
        lemma_lex_total(a[n].0, b[m].0);
        if q < m {
            assert(lex_lt(b[q].0, b[m].0));
            if r < n {
                assert(lex_lt(a[r].0, a[n].0));
            }
        }
        assert(q == m);
        assert(a[n] == b[m]);
        lemma_listing_remove(a, n);
        lemma_listing_remove(b, m);
        assert(a.remove(n) =~= a.drop_last());
        assert(b.remove(m) =~= b.drop_last());
        lemma_listing_unique(a.drop_last(), b.drop_last());
        assert(a =~= a.drop_last().push(a[n]));
        assert(b =~= b.drop_last().push(b[m]));
    }
}

/// The place that `key` has or would have in the ascending listing `l`:
/// the number of keys of `l` that come before it.
pub open spec fn slot(l: Listing, key: Seq<u8>) -> int
    decreases l.len(),
{
    if l.len() == 0 {
        0
    } else if lex_lt(l.last().0, key) {
        l.len() as int
    } else {
        slot(l.drop_last(), key)
    }
}

/// The keys before the slot of `key` come before `key`, and the keys from
/// the slot on do not.
pub proof fn lemma_slot(l: Listing, key: Seq<u8>)
    requires
        ascending(l),
    ensures
        0 <= slot(l, key) <= l.len(),
        forall|i: int| 0 <= i < slot(l, key) ==> lex_lt(#[trigger] l[i].0, key),
        forall|i: int| slot(l, key) <= i < l.len() ==> !lex_lt(#[trigger] l[i].0, key),
        lists(l, key) ==> slot(l, key) < l.len() && l[slot(l, key)].0 == key,
        !lists(l, key) ==> forall|i: int|
            slot(l, key) <= i < l.len() ==> lex_lt(key, #[trigger] l[i].0),
    decreases l.len(),
{
    if l.len() > 0 {
        let n = l.len() - 1;
        let front = l.drop_last();
        assert forall|i: int, j: int| 0 <= i < j < front.len() implies lex_lt(
            #[trigger] front[i].0,
            #[trigger] front[j].0,
        ) by {
            assert(front[i] == l[i]);
            assert(front[j] == l[j]);
        }
        lemma_slot(front, key);
        if lex_lt(l[n].0, key) {
            assert forall|i: int| 0 <= i < l.len() implies lex_lt(#[trigger] l[i].0, key) by {
                if i < n {
                    assert(lex_lt(l[i].0, l[n].0));
                    lemma_lex_transitive(l[i].0, l[n].0, key);
                }
            }
            if lists(l, key) {
                let p = place(l, key);
                lemma_lex_irreflexive(key);
                assert(lex_lt(l[p].0, key));
            }
        } else {
            let p = slot(front, key);
            assert forall|i: int| 0 <= i < p implies lex_lt(#[trigger] l[i].0, key) by {
                assert(front[i] == l[i]);
            }
            assert forall|i: int| p <= i < l.len() implies !lex_lt(#[trigger] l[i].0, key) by {
                if i < n {
                    assert(front[i] == l[i]);
                }
            }
            if lists(l, key) {
                let q = place(l, key);
                if q < n {
                    assert(front[q] == l[q]);
                    assert(lists(front, key));
                    assert(front[p] == l[p]);
                } else {
                    if p < n {
                        assert(front[p] == l[p]);
                        assert(!lex_lt(l[p].0, key));
                        assert(lex_lt(l[p].0, l[n].0));
                    }
                }
            } else {
                assert forall|i: int| p <= i < l.len() implies lex_lt(key, #[trigger] l[i].0) by {
                    lemma_lex_total(key, l[i].0);
                    assert(l[i].0 != key);
                }
                assert(!lists(front, key)) by {
                    if lists(front, key) {
                        let q = place(front, key);
                        assert(front[q] == l[q]);
                    }
                }
            }
        }
    }
}

/// The ascending listing of the map of `l` with `key` set to `entry`.
pub open spec fn listing_set(l: Listing, key: Seq<u8>, entry: Entry) -> Listing {
    if lists(l, key) {
        l.update(slot(l, key), (key, entry))
    } else {
        l.insert(slot(l, key), (key, entry))
    }
}

/// The ascending listing of the map of `l` without `key`.
pub open spec fn listing_unset(l: Listing, key: Seq<u8>) -> Listing {
    if lists(l, key) {
        l.remove(slot(l, key))
    } else {
        l
    }
}

/// Setting a key in a listing lists the map with the key set.
pub proof fn lemma_listing_set(l: Listing, key: Seq<u8>, entry: Entry)
    requires
        ascending(l),
    ensures
        is_listing(listing_set(l, key, entry), listed(l).insert(key, entry)),
{
    lemma_slot(l, key);
    let p = slot(l, key);
    if lists(l, key) {
        lemma_listing_update(l, p, entry);
    } else {
        lemma_listing_insert(l, p, key, entry);
    }
}

/// Taking a key out of a listing lists the map without the key.
pub proof fn lemma_listing_unset(l: Listing, key: Seq<u8>)
    requires
        ascending(l),
    ensures
        is_listing(listing_unset(l, key), listed(l).remove(key)),
{
    lemma_slot(l, key);
    let p = slot(l, key);
    if lists(l, key) {
        lemma_listing_remove(l, p);
    } else {
        assert(listed(l).remove(key) =~= listed(l));
    }
}

/// The key directory.
#[derive(Debug)]
pub struct Index {
    keys: Vec<Vec<u8>>,
    entries: Vec<Entry>,
}

impl View for Index {
    type V = Map<Seq<u8>, Entry>;

    closed spec fn view(&self) -> Map<Seq<u8>, Entry> {
        listed(self.listing())
    }
}

impl Index {
    /// The directory in ascending order of its keys.
    pub closed spec fn listing(&self) -> Listing {
        Seq::new(self.keys@.len(), |i: int| (self.keys@[i]@, self.entries@[i]))
    }

    /// The keys ascend strictly, each with its entry.
    pub closed spec fn wf(&self) -> bool {
        self.keys@.len() == self.entries@.len() && ascending(self.listing())
    }

    /// The listing is the ascending listing of the view.
    pub proof fn lemma_listing(&self)
        requires
            self.wf(),
        ensures
            is_listing(self.listing(), self@),
    {
    }

    /// The keys of a directory fit the machine.
    pub proof fn lemma_key_lengths(&self)
        requires
            self.wf(),
        ensures
            forall|key: Seq<u8>| self@.contains_key(key) ==> key.len() <= usize::MAX,
            forall|i: int|
                0 <= i < self.listing().len() ==> (#[trigger] self.listing()[i]).0.len()
                    <= usize::MAX,
    {
        let l = self.listing();
        assert forall|i: int| 0 <= i < l.len() implies (#[trigger] l[i]).0.len() <= usize::MAX by {
            assert(self.keys@[i].len() == self.keys@[i]@.len());
        }
        assert forall|key: Seq<u8>| self@.contains_key(key) implies key.len() <= usize::MAX by {
            let p = place(l, key);
            assert(l[p].0 == key);
        }
    }

    pub fn new() -> (index: Self)
        ensures
            index.wf(),
            index@ == Map::<Seq<u8>, Entry>::empty(),
            index.listing() == Seq::<(Seq<u8>, Entry)>::empty(),
    {
        let index = Self { keys: Vec::new(), entries: Vec::new() };
        assert(index.listing() =~= Seq::<(Seq<u8>, Entry)>::empty());
        assert(index@ =~= Map::<Seq<u8>, Entry>::empty());
        index
    }

    /// The number of keys.
    pub fn len(&self) -> (n: usize)
        requires
            self.wf(),
        ensures
            n == self.listing().len(),
    {
        self.keys.len()
    }

    /// Searches for `key`: where it stands, or where it would have to be
    /// put in.
    fn find(&self, key: &[u8]) -> (r: (bool, usize))
        requires
            self.wf(),
        ensures
            r.1 <= self.listing().len(),
            r.0 ==> r.1 < self.listing().len() && self.listing()[r.1 as int].0 == key@,
            !r.0 ==> {
                &&& forall|i: int| 0 <= i < r.1 ==> lex_lt(#[trigger] self.listing()[i].0, key@)
                &&& forall|i: int|
                    r.1 <= i < self.listing().len() ==> lex_lt(
                        key@,
                        #[trigger] self.listing()[i].0,
                    )
            },
    {
        let ghost l = self.listing();
        let mut lo: usize = 0;
        let mut hi: usize = self.keys.len();
        while lo < hi
            invariant
                self.wf(),
                l == self.listing(),
                lo <= hi <= l.len(),
                l.len() == self.keys@.len(),
                forall|i: int| 0 <= i < lo ==> lex_lt(#[trigger] l[i].0, key@),
                forall|i: int| hi <= i < l.len() ==> lex_lt(key@, #[trigger] l[i].0),
            decreases hi - lo,
        {
            let mid = lo + (hi - lo) / 2;
            assert(l[mid as int].0 == self.keys@[mid as int]@);
            match rank_keys(self.keys[mid].as_slice(), key) {
                Rank::Same => {
                    return (true, mid);
                },
                Rank::Below => {
                    assert forall|i: int| 0 <= i < mid + 1 implies lex_lt(
                        #[trigger] l[i].0,
                        key@,
                    ) by {
                        if i < mid {
                            assert(lex_lt(l[i].0, l[mid as int].0));
                            lemma_lex_transitive(l[i].0, l[mid as int].0, key@);
                        }
                    }
                    lo = mid + 1;
                },
                Rank::Above => {
                    proof {
                        lemma_lex_total(l[mid as int].0, key@);
                    }
                    assert forall|i: int| mid <= i < l.len() implies lex_lt(
                        key@,
                        #[trigger] l[i].0,
                    ) by {
                        if mid < i {
                            assert(lex_lt(l[mid as int].0, l[i].0));
                            lemma_lex_transitive(key@, l[mid as int].0, l[i].0);
                        }
                    }
                    hi = mid;
                },
            }
        }
        (false, lo)
    }

    pub fn clear(&mut self)
        ensures
            final(self).wf(),
            final(self)@ == Map::<Seq<u8>, Entry>::empty(),
            final(self).listing() == Seq::<(Seq<u8>, Entry)>::empty(),
    {
        self.keys.clear();
        self.entries.clear();
        assert(self.listing() =~= Seq::<(Seq<u8>, Entry)>::empty());
        assert(self@ =~= Map::<Seq<u8>, Entry>::empty());
    }

    /// The entry of `key`, if the directory holds one.
    pub fn get<'a>(&'a self, key: &[u8]) -> (r: Option<&'a Entry>)
        requires
            self.wf(),
        ensures
            match r {
                Some(entry) => self@.contains_key(key@) && self@[key@] == *entry,
                None => !self@.contains_key(key@),
            },
    {
        let (found, i) = self.find(key);
        if found {
            proof {
                lemma_listed_at(self.listing(), i as int);
            }
            Some(&self.entries[i])
        } else {
            proof {
                let l = self.listing();
                lemma_lex_irreflexive(key@);
                if lists(l, key@) {
                    let p = place(l, key@);
                    assert(lex_lt(l[p].0, key@) || lex_lt(key@, l[p].0));
                }
            }
            None
        }
    }

    /// Sets the entry of `key`, and hands back the one it had.
    pub fn insert(&mut self, key: &[u8], timestamp: u64, file: u64, offset: u64, size: u64) -> (r:
        Option<Entry>)
        requires
            old(self).wf(),
        ensures
            final(self).wf(),
            final(self)@ == old(self)@.insert(key@, Entry { file, timestamp, offset, size }),
            r == if old(self)@.contains_key(key@) {
                Some(old(self)@[key@])
            } else {
                None
            },
    {
        let entry = Entry::from(timestamp, file, offset, size);
        let (found, i) = self.find(key);
        let ghost l = self.listing();
        if found {
            let prev = self.entries[i];
            self.entries.set(i, entry);
            proof {
                lemma_listed_at(l, i as int);
                lemma_listing_update(l, i as int, entry);
                assert(self.listing() =~= l.update(i as int, (l[i as int].0, entry)));
            }
            Some(prev)
        } else {
            self.keys.insert(i, slice_to_vec(key));
            self.entries.insert(i, entry);
            proof {
                lemma_listing_insert(l, i as int, key@, entry);
                assert(self.listing() =~= l.insert(i as int, (key@, entry)));
            }
            None
        }
    }

    /// Takes `key` out, and hands back the entry it had.
    pub fn delete(&mut self, key: &[u8]) -> (r: Option<Entry>)
        requires
            old(self).wf(),
        ensures
            final(self).wf(),
            final(self)@ == old(self)@.remove(key@),
            r == if old(self)@.contains_key(key@) {
                Some(old(self)@[key@])
            } else {
                None
            },
    {
        let (found, i) = self.find(key);
        let ghost l = self.listing();
        if found {
            let prev = self.entries[i];
            self.keys.remove(i);
            self.entries.remove(i);
            proof {
                lemma_listed_at(l, i as int);
                lemma_listing_remove(l, i as int);
                assert(self.listing() =~= l.remove(i as int));
            }
            Some(prev)
        } else {
            proof {
                lemma_lex_irreflexive(key@);
                if lists(l, key@) {
                    let p = place(l, key@);
                    assert(lex_lt(l[p].0, key@) || lex_lt(key@, l[p].0));
                }
                assert(self@ =~= old(self)@.remove(key@));
            }
            None
        }
    }

    /// The keys in ascending order.
    pub fn keys(&self) -> (keys: Vec<Vec<u8>>)
        requires
            self.wf(),
        ensures
            keys@.len() == self.listing().len(),
            forall|i: int| 0 <= i < keys@.len() ==> (#[trigger] keys@[i])@ == self.listing()[i].0,
    {
        let mut out: Vec<Vec<u8>> = Vec::new();
        let mut i: usize = 0;
        while i < self.keys.len()
            invariant
                self.wf(),
                i <= self.keys@.len(),
                out@.len() == i,
                forall|j: int| 0 <= j < i ==> (#[trigger] out@[j])@ == self.listing()[j].0,
            decreases self.keys@.len() - i,
        {
            out.push(slice_to_vec(self.keys[i].as_slice()));
            i = i + 1;
        }
        out
    }

    /// The keys with their entries, in ascending order of the keys.
    pub fn entries(&self) -> (entries: Vec<(Vec<u8>, Entry)>)
        requires
            self.wf(),
        ensures
            pairs(entries@) == self.listing(),
    {
        let entries = self.range_bounds(&KeyBound::Unbounded, &KeyBound::Unbounded);
        proof {
            lemma_range_unbounded(self.listing());
        }
        entries
    }

    /// The keys from `start` to `end`, both included, with their entries,
    /// in ascending order of the keys.
    pub fn range(&self, start: &[u8], end: &[u8]) -> (entries: Vec<(Vec<u8>, Entry)>)
        requires
            self.wf(),
        ensures
            pairs(entries@) == range_of(
                self.listing(),
                Bound::Included(start@),
                Bound::Included(end@),
            ),
    {
        self.range_bounds(
            &KeyBound::Included(slice_to_vec(start)),
            &KeyBound::Included(slice_to_vec(end)),
        )
    }

    /// The keys in the range from `lower` to `upper` with their entries,
    /// in ascending order of the keys.
    pub fn range_bounds(&self, lower: &KeyBound, upper: &KeyBound) -> (entries: Vec<
        (Vec<u8>, Entry),
    >)
        requires
            self.wf(),
        ensures
            pairs(entries@) == range_of(self.listing(), lower@, upper@),
    {
        let ghost l = self.listing();
        let mut out: Vec<(Vec<u8>, Entry)> = Vec::new();
        let mut i: usize = 0;
        assert(l.take(0) =~= Seq::<(Seq<u8>, Entry)>::empty());
        assert(pairs(out@) =~= Seq::<(Seq<u8>, Entry)>::empty());
        while i < self.keys.len()
            invariant
                self.wf(),
                l == self.listing(),
                i <= self.keys@.len(),
                pairs(out@) == range_of(l.take(i as int), lower@, upper@),
            decreases self.keys@.len() - i,
        {
            let ghost before = pairs(out@);
            assert(l.take(i + 1).drop_last() =~= l.take(i as int));
            assert(l.take(i + 1).last() == l[i as int]);
            if key_within(lower, upper, self.keys[i].as_slice()) {
                out.push((slice_to_vec(self.keys[i].as_slice()), self.entries[i]));
                assert(pairs(out@) =~= before.push(l[i as int]));
            }
            i = i + 1;
        }
        assert(l.take(i as int) =~= l);
        out
    }

    /// Loads the snapshot `bytes` into the directory: each entry sets its
    /// key, in the snapshot's order. A snapshot that lacks the magic or is
    /// not whole entries behind it is refused, and the directory stays as
    /// it was.
    pub fn open(&mut self, bytes: &[u8]) -> (loaded: bool)
        requires
            old(self).wf(),
        ensures
            final(self).wf(),
            match parse_snapshot(bytes@) {
                Some(entries) => loaded && final(self)@ == load(old(self)@, entries),
                None => !loaded && final(self)@ == old(self)@,
            },
    {
        let mut reader = IndexReader::new(bytes);
        let mut read: Vec<crate::reader::Entry> = Vec::new();
        let ghost body = bytes@.skip(INDEX_HEADER_LEN as int);
        assert(entry_views(read@) =~= Seq::<EntryView>::empty());
        loop
            invariant
                reader.valid() == has_index_header(bytes@),
                reader.valid() ==> parse_snapshot_body(body) == after(
                    entry_views(read@),
                    parse_snapshot_body(reader.rest()),
                ),
            ensures
                reader.valid() == has_index_header(bytes@),
                reader.valid() && reader.rest().len() == 0 ==> parse_snapshot_body(body) == Some(
                    entry_views(read@),
                ),
                reader.valid() && reader.rest().len() > 0 ==> parse_snapshot_body(body) is None,
            decreases reader.rest().len(),
        {
            let ghost before = entry_views(read@);
            let ghost rest = reader.rest();
            match reader.next() {
                Some(entry) => {
                    read.push(entry);
                    proof {
                        let tail = parse_snapshot_body(reader.rest());
                        assert(entry_views(read@) =~= before + seq![entry@]);
                        assert(after(before, after(seq![entry@], tail)) == after(
                            before + seq![entry@],
                            tail,
                        )) by {
                            if let Some(t) = tail {
                                assert(before + (seq![entry@] + t) =~= before + seq![entry@] + t);
                            }
                        }
                    }
                },
                None => {
                    proof {
                        if reader.valid() && rest.len() == 0 {
                            assert(before + Seq::<EntryView>::empty() =~= before);
                        }
                    }
                    break ;
                },
            }
        }
        if !reader.at_end() {
            return false;
        }
        let ghost entries = entry_views(read@);
        let mut i: usize = 0;
        while i < read.len()
            invariant
                self.wf(),
                i <= read@.len(),
                entries == entry_views(read@),
                self@ == load(old(self)@, entries.take(i as int)),
            decreases read@.len() - i,
        {
            let e = &read[i];
            assert(entries.take(i + 1).drop_last() =~= entries.take(i as int));
            assert(entries.take(i + 1).last() == e@);
            self.insert(e.key(), e.timestamp(), e.file(), e.offset(), e.size());
            i = i + 1;
        }
        assert(entries.take(i as int) =~= entries);
        true
    }

    /// Replays the data segment `bytes`, which has the number `file_id`,
    /// over the directory: a put sets its key unless the directory holds a
    /// later timestamp for it; a tombstone takes its key out where the
    /// directory holds an earlier timestamp for it.
    pub fn from_data(&mut self, bytes: &[u8], file_id: u64)
        requires
            old(self).wf(),
        ensures
            final(self).wf(),
            final(self)@ == replay(old(self)@, scan_segment(bytes@), file_id),
    {
        let mut reader = EntryReader::new(bytes);
        let ghost all = scan_segment(bytes@);
        let ghost mut done: int = 0;
        assert(all.skip(0) =~= all);
        assert(all.take(0) =~= Seq::<EntryView>::empty());
        loop
            invariant
                self.wf(),
                reader.wf(),
                0 <= done <= all.len(),
                reader.remaining() == all.skip(done),
                self@ == replay(old(self)@, all.take(done), file_id),
            ensures
                self.wf(),
                self@ == replay(old(self)@, all, file_id),
            decreases reader.remaining().len(),
        {
            match reader.next() {
                Some(entry) => {
                    proof {
                        assert(entry@ == all[done]);
                        assert(all.take(done + 1).drop_last() =~= all.take(done));
                        assert(all.take(done + 1).last() == all[done]);
                        assert(all.skip(done).skip(1) =~= all.skip(done + 1));
                    }
                    if entry.is_tombstone() {
                        let newer = match self.get(entry.key()) {
                            Some(current) => entry.timestamp() > current.timestamp(),
                            None => false,
                        };
                        if newer {
                            self.delete(entry.key());
                        }
                    } else {
                        let stale = match self.get(entry.key()) {
                            Some(current) => current.timestamp() > entry.timestamp(),
                            None => false,
                        };
                        if !stale {
                            self.insert(
                                entry.key(),
                                entry.timestamp(),
                                file_id,
                                entry.offset(),
                                entry.size(),
                            );
                        }
                    }
                    proof {
                        done = done + 1;
                    }
                },
                None => {
                    proof {
                        assert(all.take(done) =~= all);
                    }
                    break ;
                },
            }
        }
    }

    /// The snapshot of the directory: the magic, then every key with its
    /// entry in ascending order of the keys.
    pub fn write(&self) -> (bytes: Vec<u8>)
        requires
            self.wf(),
        ensures
            bytes@ == snapshot_bytes(listing_entries(self.listing())),
    {
        let ghost l = self.listing();
        let ghost entries = listing_entries(l);
        let mut disk = DiskTable::open(Vec::new());
        disk.write(index_header().as_slice());
        let mut i: usize = 0;
        assert(entries.take(0) =~= Seq::<EntryView>::empty());
        assert(disk@ =~= snapshot_bytes(entries.take(0)));
        while i < self.keys.len()
            invariant
                self.wf(),
                l == self.listing(),
                entries == listing_entries(l),
                i <= self.keys@.len(),
                disk@ == snapshot_bytes(entries.take(i as int)),
            decreases self.keys@.len() - i,
        {
            let key = self.keys[i].as_slice();
            let entry = &self.entries[i];
            let ghost before = disk@;
            disk.write_u64(key.len() as u64);
            disk.write(key);
            disk.write_u64(entry.timestamp());
            disk.write_u64(entry.file());
            disk.write_u64(entry.offset());
            disk.write_u64(entry.size());
            proof {
                assert(entries.take(i + 1).drop_last() =~= entries.take(i as int));
                assert(entries.take(i + 1).last() == entries[i as int]);
                assert(entries[i as int].key == key@);
                assert(disk@ =~= before + snapshot_entry(entries[i as int]));
                assert(disk@ =~= snapshot_bytes(entries.take(i + 1)));
            }
            i = i + 1;
        }
        assert(entries.take(i as int) =~= entries);
        disk.flush();
        disk.into_bytes()
    }
}

/// Key and entry pairs with each key taken as a plain byte string.
pub open spec fn pairs(v: Seq<(Vec<u8>, Entry)>) -> Listing {
    Seq::new(v.len(), |i: int| (v[i].0@, v[i].1))
}

/// The part of a listing whose keys lie in the range from `lower` to
/// `upper`, in the listing's order.
pub open spec fn range_of(l: Listing, lower: Bound, upper: Bound) -> Listing
    decreases l.len(),
{
    if l.len() == 0 {
        l
    } else if within(lower, upper, l.last().0) {
        range_of(l.drop_last(), lower, upper).push(l.last())
    } else {
        range_of(l.drop_last(), lower, upper)
    }
}

/// The range without ends is the whole listing.
pub proof fn lemma_range_unbounded(l: Listing)
    ensures
        range_of(l, Bound::Unbounded, Bound::Unbounded) == l,
    decreases l.len(),
{
    if l.len() > 0 {
        lemma_range_unbounded(l.drop_last());
        assert(l.drop_last().push(l.last()) =~= l);
    }
}

/// The range of an ascending listing is ascending, lies in the range, and
/// holds every listed key of the range with its entry.
pub proof fn lemma_range_of(l: Listing, lower: Bound, upper: Bound)
    requires
        ascending(l),
    ensures
        ascending(range_of(l, lower, upper)),
        forall|i: int|
            0 <= i < range_of(l, lower, upper).len() ==> {
                let p = #[trigger] range_of(l, lower, upper)[i];
                within(lower, upper, p.0) && listed(l).contains_key(p.0) && listed(l)[p.0] == p.1
            },
        forall|key: Seq<u8>|
            listed(l).contains_key(key) && within(lower, upper, key) ==> lists(
                range_of(l, lower, upper),
                key,
            ),
    decreases l.len(),
{
    let r = range_of(l, lower, upper);
    if l.len() > 0 {
        let front = l.drop_last();
        let rf = range_of(front, lower, upper);
        let n = l.len() - 1;
        assert forall|i: int, j: int| 0 <= i < j < front.len() implies lex_lt(
            #[trigger] front[i].0,
            #[trigger] front[j].0,
        ) by {
            assert(front[i] == l[i]);
            assert(front[j] == l[j]);
        }
        lemma_range_of(front, lower, upper);
        lemma_listed_at(l, n);
        assert forall|i: int| 0 <= i < rf.len() implies lex_lt((#[trigger] rf[i]).0, l[n].0)
            && listed(l).contains_key(rf[i].0) && listed(l)[rf[i].0] == rf[i].1 by {
            let p = rf[i];
            assert(listed(front).contains_key(p.0));
            let q = place(front, p.0);
            lemma_listed_at(front, q);
            assert(front[q] == l[q]);
            lemma_listed_at(l, q);
            assert(lex_lt(l[q].0, l[n].0));
        }
        assert forall|key: Seq<u8>|
            listed(l).contains_key(key) && within(lower, upper, key) implies lists(r, key) by {
            let q = place(l, key);
            if q < n {
                assert(front[q] == l[q]);
                assert(lists(front, key));
                assert(lists(rf, key));
                let i = place(rf, key);
                assert(r[i] == rf[i]);
            } else {
                assert(within(lower, upper, l.last().0));
                assert(r[r.len() - 1] == l[n]);
            }
        }
        if within(lower, upper, l.last().0) {
            assert(r == rf.push(l[n]));
            assert forall|i: int, j: int| 0 <= i < j < r.len() implies lex_lt(
                #[trigger] r[i].0,
                #[trigger] r[j].0,
            ) by {
                if j < rf.len() {
                    assert(r[i] == rf[i]);
                    assert(r[j] == rf[j]);
                } else {
                    assert(r[i] == rf[i]);
                }
            }
            assert forall|i: int| 0 <= i < r.len() implies {
                let p = #[trigger] r[i];
                within(lower, upper, p.0) && listed(l).contains_key(p.0) && listed(l)[p.0] == p.1
            } by {
                if i < rf.len() {
                    assert(r[i] == rf[i]);
                }
            }
        } else {
            assert(r == rf);
        }
    }
}

/// The place that a scanned or loaded entry names, in the segment `file`.
pub open spec fn entry_at(e: EntryView, file: u64) -> Entry {
    Entry { file, timestamp: e.timestamp, offset: e.offset, size: e.size }
}

/// A listing as snapshot entries.
pub open spec fn listing_entries(l: Listing) -> Seq<EntryView> {
    Seq::new(
        l.len(),
        |i: int|
            EntryView {
                key: l[i].0,
                file: l[i].1.file,
                timestamp: l[i].1.timestamp,
                offset: l[i].1.offset,
                size: l[i].1.size,
            },
    )
}

/// The map `m` after the snapshot entries `entries` have been loaded over
/// it, each setting its key, in their order.
pub open spec fn load(m: Map<Seq<u8>, Entry>, entries: Seq<EntryView>) -> Map<Seq<u8>, Entry>
    decreases entries.len(),
{
    if entries.len() == 0 {
        m
    } else {
        let e = entries.last();
        load(m, entries.drop_last()).insert(e.key, entry_at(e, e.file))
    }
}

/// The map `m` after one scanned entry of the segment `file_id` has been
/// replayed over it. A put sets its key unless `m` holds a later timestamp
/// for it. A tombstone, which is an entry of size zero, takes its key out
/// where `m` holds an earlier timestamp for it.
pub open spec fn replay_step(m: Map<Seq<u8>, Entry>, e: EntryView, file_id: u64) -> Map<
    Seq<u8>,
    Entry,
> {
    if e.size == 0 {
        if m.contains_key(e.key) && e.timestamp > m[e.key].timestamp {
            m.remove(e.key)
        } else {
            m
        }
    } else if m.contains_key(e.key) && m[e.key].timestamp > e.timestamp {
        m
    } else {
        m.insert(e.key, entry_at(e, file_id))
    }
}

/// The map `m` after the scanned entries of the segment `file_id` have
/// been replayed over it in their order.
pub open spec fn replay(m: Map<Seq<u8>, Entry>, entries: Seq<EntryView>, file_id: u64) -> Map<
    Seq<u8>,
    Entry,
>
    decreases entries.len(),
{
    if entries.len() == 0 {
        m
    } else {
        replay_step(replay(m, entries.drop_last(), file_id), entries.last(), file_id)
    }
}

/// Loading the entries of an ascending listing over nothing gives the map
/// that the listing lists.
pub proof fn lemma_load_listing(l: Listing)
    requires
        ascending(l),
    ensures
        load(Map::empty(), listing_entries(l)) == listed(l),
    decreases l.len(),
{
    let entries = listing_entries(l);
    if l.len() == 0 {
        assert(listed(l) =~= Map::<Seq<u8>, Entry>::empty());
    } else {
        let n = l.len() - 1;
        let front = l.drop_last();
        assert forall|i: int, j: int| 0 <= i < j < front.len() implies lex_lt(
            #[trigger] front[i].0,
            #[trigger] front[j].0,
        ) by {
            assert(front[i] == l[i]);
            assert(front[j] == l[j]);
        }
        lemma_load_listing(front);
        assert(entries.drop_last() =~= listing_entries(front));
        assert forall|i: int| 0 <= i < n implies lex_lt(#[trigger] front[i].0, l[n].0) by {
            assert(front[i] == l[i]);
        }
        lemma_listing_insert(front, n, l[n].0, l[n].1);
        assert(front.insert(n, (l[n].0, l[n].1)) =~= l);
        assert(entry_at(entries.last(), entries.last().file) == l[n].1);
    }
}

} // verus!
