use std::collections::{HashMap, VecDeque};
use vstd::prelude::*;

verus! {

/// Eviction policy for the optional objective-function cache.
///
/// `FirstIterator` drops the oldest entry when the cache is full.
/// `Bucket` clears the whole cache when it is full.
#[derive(Clone, Copy, Debug, PartialEq, Eq, Structural)]
pub enum CacheKind {
    FirstIterator,
    Bucket,
}

impl Default for CacheKind {
    fn default() -> (k: CacheKind)
        ensures
            k == CacheKind::FirstIterator,
    {
        CacheKind::FirstIterator
    }
}

/// The entries of a cache, oldest first: a key (the bit patterns of a
/// particle's coordinates) and the value stored for it.
pub type Entries<T> = Seq<(Seq<u64>, T)>;

/// No key occurs twice.
pub open spec fn distinct_keys<T>(s: Entries<T>) -> bool {
    forall|i: int, j: int| 0 <= i < j < s.len() ==> (#[trigger] s[i]).0 != (#[trigger] s[j]).0
}

/// Whether some entry has the key.
pub open spec fn has_key<T>(s: Entries<T>, key: Seq<u64>) -> bool {
    exists|i: int| 0 <= i < s.len() && (#[trigger] s[i]).0 == key
}

/// The position of the entry with the key (meaningful when `has_key`).
pub open spec fn key_index<T>(s: Entries<T>, key: Seq<u64>) -> int {
    choose|i: int| 0 <= i < s.len() && (#[trigger] s[i]).0 == key
}

/// The value stored for the key, if any.
pub open spec fn lookup<T>(s: Entries<T>, key: Seq<u64>) -> Option<T> {
    if has_key(s, key) {
        Some(s[key_index(s, key)].1)
    } else {
        None
    }
}

/// The entries after storing `value` for `key` in a cache of capacity `cap`:
/// nothing changes when `cap` is 0; a present key has its value replaced in
/// place; otherwise the entry goes last, after the oldest entry was dropped
/// (`FirstIterator`) or every entry was dropped (`Bucket`) if the cache was full.
pub open spec fn inserted<T>(
    s: Entries<T>,
    cap: nat,
    kind: CacheKind,
    key: Seq<u64>,
    value: T,
) -> Entries<T> {
    if cap == 0 {
        s
    } else if has_key(s, key) {
        s.update(key_index(s, key), (key, value))
    } else if s.len() >= cap {
        match kind {
            CacheKind::FirstIterator => s.drop_first().push((key, value)),
            CacheKind::Bucket => seq![(key, value)],
        }
    } else {
        s.push((key, value))
    }
}

/// The multiplier of the key digest (the 64-bit FNV prime).
pub const DIGEST_PRIME: u64 = 0x0000_0100_0000_01B3;

/// The starting value of the key digest (the 64-bit FNV offset basis).
pub const DIGEST_BASIS: u64 = 0xCBF2_9CE4_8422_2325;

/// One step of the key digest: mix a word in, then multiply modulo 2^64.
pub open spec fn digest_step(h: u64, w: u64) -> u64 {
    (((h ^ w) as int * DIGEST_PRIME as int) % 0x1_0000_0000_0000_0000) as u64
}

/// The digest of a key, folding its words from the first on.
pub open spec fn digest_from(h: u64, key: Seq<u64>) -> u64
    decreases key.len(),
{
    if key.len() == 0 {
        h
    } else {
        digest_from(digest_step(h, key[0]), key.drop_first())
    }
}

/// The digest under which a key is indexed.
pub open spec fn digest(key: Seq<u64>) -> u64 {
    digest_from(DIGEST_BASIS, key)
}

/// The digest of a key.
fn key_digest(key: &[u64]) -> (d: u64)
    ensures
        d == digest(key@),
{
    let mut h: u64 = DIGEST_BASIS;
    let mut i: usize = 0;
    assert(key@.skip(0) =~= key@);
    while i < key.len()
        invariant
            i <= key@.len(),
            digest_from(h, key@.skip(i as int)) == digest(key@),
        decreases key@.len() - i,
    {
        assert(key@.skip(i as int).drop_first() =~= key@.skip(i + 1));
        let mixed: u128 = (h ^ key[i]) as u128 * DIGEST_PRIME as u128;
        h = (mixed % 0x1_0000_0000_0000_0000u128) as u64;
        i = i + 1;
    }
    assert(key@.skip(0) =~= key@);
    h
}

/// A bounded cache of objective values keyed by particle bit patterns.
///
/// Each stored entry gets a fresh stamp. `slots` maps stamps to entries,
/// `order` holds the stamps of the entries oldest first, and `index` maps the
/// digest of each key to the stamps of the entries whose keys have that
/// digest. `next` counts the stamps handed out.
pub struct ObjectiveCache<T> {
    slots: HashMap<u64, (Vec<u64>, T)>,
    order: VecDeque<u64>,
    index: HashMap<u64, Vec<u64>>,
    next: u64,
    cap: usize,
    kind: CacheKind,
}

impl<T> View for ObjectiveCache<T> {
    type V = Entries<T>;

    closed spec fn view(&self) -> Entries<T> {
        Seq::new(
            self.order@.len(),
            |i: int| (self.slots@[self.order@[i]].0@, self.slots@[self.order@[i]].1),
        )
    }
}

impl<T: Copy> ObjectiveCache<T> {
    /// The most entries the cache holds.
    pub closed spec fn capacity(&self) -> nat {
        self.cap as nat
    }

    /// The eviction policy.
    pub closed spec fn policy(&self) -> CacheKind {
        self.kind
    }

    /// How many new entries the cache has stored in its life (each takes a
    /// stamp).
    pub closed spec fn stores(&self) -> nat {
        self.next as nat
    }

    /// Whether another entry can be stamped: fewer than `u64::MAX` entries
    /// were stored so far.
    pub open spec fn has_fresh_stamp(&self) -> bool {
        self.stores() < u64::MAX
    }

    /// The stamps, slots, queue and index agree.
    pub closed spec fn stamped(&self) -> bool {
        &&& self.order@.len() <= self.cap
        &&& forall|i: int, j: int|
            0 <= i < j < self.order@.len() ==> #[trigger] self.order@[i] != #[trigger] self.order@[j]
        &&& forall|i: int|
            0 <= i < self.order@.len() ==> {
                &&& #[trigger] self.order@[i] < self.next
                &&& self.slots@.contains_key(self.order@[i])
                &&& self.index@.contains_key(digest(self.slots@[self.order@[i]].0@))
                &&& self.index@[digest(self.slots@[self.order@[i]].0@)]@.contains(self.order@[i])
            }
        &&& forall|d: u64, j: int|
            #![trigger self.index@[d]@[j]]
            self.index@.contains_key(d) && 0 <= j < self.index@[d]@.len() ==> {
                &&& self.order@.contains(self.index@[d]@[j])
                &&& digest(self.slots@[self.index@[d]@[j]].0@) == d
            }
        &&& forall|d: u64, j: int, k: int|
            #![trigger self.index@[d]@[j], self.index@[d]@[k]]
            self.index@.contains_key(d) && 0 <= j < k < self.index@[d]@.len()
                ==> self.index@[d]@[j] != self.index@[d]@[k]
    }

    /// Keys are distinct and the capacity is respected.
    pub open spec fn wf(&self) -> bool {
        &&& self.stamped()
        &&& distinct_keys(self@)
        &&& self@.len() <= self.capacity()
    }

    /// An empty cache that holds at most `cap` entries.
    pub fn new(cap: usize, kind: CacheKind) -> (c: Self)
        ensures
            c.wf(),
            c@ == Seq::<(Seq<u64>, T)>::empty(),
            c.capacity() == cap,
            c.policy() == kind,
            c.stores() == 0,
    {
        broadcast use vstd::std_specs::hash::group_hash_axioms;

        let c = ObjectiveCache {
            slots: HashMap::new(),
            order: VecDeque::new(),
            index: HashMap::new(),
            next: 0,
            cap,
            kind,
        };
        assert(c@ =~= Seq::<(Seq<u64>, T)>::empty());
        c
    }

    /// The number of entries.
    pub fn len(&self) -> (n: usize)
        requires
            self.wf(),
        ensures
            n == self@.len(),
    {
        self.order.len()
    }

    /// Whether another entry can be stamped.
    pub fn can_insert(&self) -> (r: bool)
        ensures
            r == self.has_fresh_stamp(),
    {
        self.next < u64::MAX
    }

    /// The stamp of the entry with `key`, if any.
    fn find(&self, key: &[u64]) -> (r: Option<u64>)
        requires
            self.wf(),
        ensures
            r matches Some(s) ==> self.order@.contains(s) && self.slots@[s].0@ == key@,
            r is None ==> !has_key(self@, key@),
    {
        broadcast use vstd::std_specs::hash::group_hash_axioms;

        let d = key_digest(key);
        match self.index.get(&d) {
            None => {
                proof {
                    if has_key(self@, key@) {
                        let i = key_index(self@, key@);
                        let s = self.order@[i];
                        assert(self.slots@[s].0@ == self@[i].0);
                    }
                }
                None
            },
            Some(stamps) => {
                let mut j: usize = 0;
                while j < stamps.len()
                    invariant
                        self.wf(),
                        self.index@.contains_key(d),
                        d == digest(key@),
                        stamps@ == self.index@[d]@,
                        j <= stamps@.len(),
                        forall|jj: int|
                            0 <= jj < j ==> self.slots@[#[trigger] stamps@[jj]].0@ != key@,
                    decreases stamps@.len() - j,
                {
                    let s = stamps[j];
                    assert(self.index@[d]@[j as int] == s);
                    let ghost i = choose|i: int| 0 <= i < self.order@.len() && self.order@[i] == s;
                    assert(self.slots@.contains_key(self.order@[i]));
                    match self.slots.get(&s) {
                        Some(e) => {
                            if same_key(e.0.as_slice(), key) {
                                return Some(s);
                            }
                        },
                        None => {},
                    }
                    j = j + 1;
                }
                proof {
                    if has_key(self@, key@) {
                        let i = key_index(self@, key@);
                        let s = self.order@[i];
                        assert(self.slots@[s].0@ == self@[i].0);
                        assert(self.index@[d]@.contains(s));
                        let jj = choose|jj: int| 0 <= jj < stamps@.len() && stamps@[jj] == s;
                        assert(self.slots@[stamps@[jj]].0@ != key@);
                    }
                }
                None
            },
        }
    }

    /// The value stored for `key`, if any.
    pub fn get(&self, key: &[u64]) -> (r: Option<T>)
        requires
            self.wf(),
        ensures
            r == lookup(self@, key@),
    {
        broadcast use vstd::std_specs::hash::group_hash_axioms;

        match self.find(key) {
            Some(s) => {
                let ghost i = choose|i: int| 0 <= i < self.order@.len() && self.order@[i] == s;
                proof {
                    assert(self@[i].0 == key@);
                    lemma_key_index_unique(self@, key@, i);
                }
                match self.slots.get(&s) {
                    Some(e) => Some(e.1),
                    None => None,
                }
            },
            None => None,
        }
    }

    /// Drops the oldest entry.
    fn evict_oldest(&mut self)
        requires
            old(self).wf(),
            old(self)@.len() > 0,
        ensures
            final(self).stamped(),
            final(self)@ == old(self)@.drop_first(),
            final(self).cap == old(self).cap,
            final(self).kind == old(self).kind,
            final(self).next == old(self).next,
    {
        broadcast use vstd::std_specs::hash::group_hash_axioms;

        let ghost old_slots = self.slots@;
        let ghost old_index = self.index@;
        let ghost old_order = self.order@;
        let b = match self.order.pop_front() {
            Some(b) => b,
            None => {
                return;
            },
        };
        assert(b == old_order[0]);
        assert(old_slots.contains_key(old_order[0]));
        let removed = self.slots.remove(&b);
        let e = match removed {
            Some(e) => e,
            None => {
                return;
            },
        };
        let d = key_digest(e.0.as_slice());
        assert(e == old_slots[b]);
        assert(old_index.contains_key(digest(old_slots[old_order[0]].0@)));
        assert(old_index.contains_key(d) && old_index[d]@.contains(b));
        let taken = self.index.remove(&d);
        let mut list = match taken {
            Some(l) => l,
            None => {
                return;
            },
        };
        let ghost old_list = list@;
        assert(old_list == old_index[d]@);
        let mut p: usize = 0;
        while p < list.len() && list[p] != b
            invariant
                list@ == old_list,
                p <= list@.len(),
                forall|q: int| 0 <= q < p ==> list@[q] != b,
            decreases list@.len() - p,
        {
            p = p + 1;
        }
        if p < list.len() {
            list.remove(p);
        }
        let ghost new_list = list@;
        if list.len() > 0 {
            self.index.insert(d, list);
        }
        proof {
            assert(self.order@ == old_order.subrange(1, old_order.len() as int));
            assert(p < old_list.len() && old_list[p as int] == b);
            assert(new_list == old_list.remove(p as int));
            assert forall|i: int| 0 <= i < self.order@.len() implies {
                &&& #[trigger] self.order@[i] < self.next
                &&& self.slots@.contains_key(self.order@[i])
                &&& self.index@.contains_key(digest(self.slots@[self.order@[i]].0@))
                &&& self.index@[digest(self.slots@[self.order@[i]].0@)]@.contains(self.order@[i])
            } by {
                let s = self.order@[i];
                assert(s == old_order[i + 1]);
                assert(old_order[0] != old_order[i + 1]);
                assert(old_slots.contains_key(old_order[i + 1]));
                assert(self.slots@[s] == old_slots[s]);
                let ds = digest(old_slots[s].0@);
                assert(old_index.contains_key(digest(old_slots[old_order[i + 1]].0@)));
                assert(old_index.contains_key(ds) && old_index[ds]@.contains(s));
                if ds == d {
                    let q = choose|q: int| 0 <= q < old_list.len() && old_list[q] == s;
                    assert(q != p);
                    if q < p {
                        assert(new_list[q] == s);
                    } else {
                        assert(new_list[q - 1] == s);
                    }
                    assert(new_list.len() > 0);
                }
            }
            assert forall|dd: u64, j: int|
                self.index@.contains_key(dd) && 0 <= j < self.index@[dd]@.len() implies {
                &&& self.order@.contains(#[trigger] self.index@[dd]@[j])
                &&& digest(self.slots@[self.index@[dd]@[j]].0@) == dd
            } by {
                let q = if dd == d {
                    if j < p {
                        j
                    } else {
                        j + 1
                    }
                } else {
                    j
                };
                let s = self.index@[dd]@[j];
                if dd == d {
                    assert(self.index@[dd]@ == new_list);
                    assert(new_list[j] == old_list[q]);
                    assert(old_index[d]@[q] == old_list[q]);
                } else {
                    assert(self.index@[dd] == old_index[dd]);
                }
                assert(old_index[dd]@[q] == s);
                assert(old_order.contains(s));
                let k = choose|k: int| 0 <= k < old_order.len() && old_order[k] == s;
                if k == 0 {
                    assert(digest(old_slots[b].0@) == d);
                    if dd == d {
                        assert(old_list[q] != old_list[p as int]);
                    }
                }
                assert(k > 0);
                assert(self.order@[k - 1] == s);
                assert(self.slots@[s] == old_slots[s]);
            }
            assert forall|dd: u64, j: int, k: int|
                self.index@.contains_key(dd) && 0 <= j < k < self.index@[dd]@.len() implies #[trigger] self.index@[dd]@[j]
                != #[trigger] self.index@[dd]@[k] by {
                if dd == d {
                    let qj = if j < p { j } else { j + 1 };
                    let qk = if k < p { k } else { k + 1 };
                    assert(new_list[j] == old_list[qj]);
                    assert(new_list[k] == old_list[qk]);
                    assert(old_index[d]@[qj] != old_index[d]@[qk]);
                } else {
                    assert(self.index@[dd] == old_index[dd]);
                    assert(old_index[dd]@[j] != old_index[dd]@[k]);
                }
            }
            assert forall|i: int, j: int|
                0 <= i < j < self.order@.len() implies #[trigger] self.order@[i]
                != #[trigger] self.order@[j] by {
                assert(old_order[i + 1] != old_order[j + 1]);
            }
            assert(self@ =~= old(self)@.drop_first()) by {
                assert forall|i: int| 0 <= i < self@.len() implies self@[i] == old(self)@.drop_first()[i] by {
                    let s = self.order@[i];
                    assert(s == old_order[i + 1]);
                    assert(old_order[0] != old_order[i + 1]);
                    assert(self.slots@[s] == old_slots[s]);
                }
            }
        }
    }

    /// Stores `value` for `key`, evicting as the cache's policy says when it
    /// is full; a cache of capacity 0 stores nothing. A new key uses up one
    /// stamp.
    pub fn insert(&mut self, key: Vec<u64>, value: T)
        requires
            old(self).wf(),
            old(self).has_fresh_stamp(),
        ensures
            final(self).wf(),
            final(self)@ == inserted(old(self)@, old(self).capacity(), old(self).policy(), key@, value),
            final(self).capacity() == old(self).capacity(),
            final(self).policy() == old(self).policy(),
            final(self).stores() <= old(self).stores() + 1,
    {
        broadcast use vstd::std_specs::hash::group_hash_axioms;

        let ghost s0 = self@;
        let ghost k = key@;
        proof {
            lemma_inserted_wf(s0, self.cap as nat, self.kind, k, value);
        }
        if self.cap == 0 {
            return;
        }
        match self.find(key.as_slice()) {
            Some(s) => {
                let ghost i = choose|i: int| 0 <= i < self.order@.len() && self.order@[i] == s;
                proof {
                    assert(s0[i].0 == k);
                    lemma_key_index_unique(s0, k, i);
                }
                let ghost old_slots = self.slots@;
                self.slots.insert(s, (key, value));
                proof {
                    assert forall|j: int| 0 <= j < self.order@.len() implies #[trigger] self.slots@[self.order@[j]].0@
                        == old_slots[self.order@[j]].0@ by {}
                    assert forall|dd: u64, j: int|
                        self.index@.contains_key(dd) && 0 <= j < self.index@[dd]@.len() implies {
                        &&& self.order@.contains(#[trigger] self.index@[dd]@[j])
                        &&& digest(self.slots@[self.index@[dd]@[j]].0@) == dd
                    } by {
                        let u = self.index@[dd]@[j];
                        if u == s {
                            assert(digest(old_slots[u].0@) == dd);
                        }
                    }
                    assert(self@ =~= s0.update(i, (k, value)));
                }
            },
            None => {
                if self.order.len() >= self.cap {
                    match self.kind {
                        CacheKind::FirstIterator => {
                            self.evict_oldest();
                        },
                        CacheKind::Bucket => {
                            self.slots.clear();
                            self.order.clear();
                            self.index.clear();
                        },
                    }
                }
                assert(self.stamped());
                let ghost mid = self@;
                let ghost mid_slots = self.slots@;
                let ghost mid_index = self.index@;
                let ghost mid_order = self.order@;
                let t = self.next;
                let d = key_digest(key.as_slice());
                let taken = self.index.remove(&d);
                let mut list = match taken {
                    Some(l) => l,
                    None => Vec::new(),
                };
                let ghost before_push = list@;
                list.push(t);
                self.index.insert(d, list);
                self.slots.insert(t, (key, value));
                self.order.push_back(t);
                self.next = t + 1;
                proof {
                    assert(before_push == if mid_index.contains_key(d) {
                        mid_index[d]@
                    } else {
                        Seq::<u64>::empty()
                    });
                    assert(self.order@ == mid_order.push(t));
                    assert forall|i: int| 0 <= i < self.order@.len() implies {
                        &&& #[trigger] self.order@[i] < self.next
                        &&& self.slots@.contains_key(self.order@[i])
                        &&& self.index@.contains_key(digest(self.slots@[self.order@[i]].0@))
                        &&& self.index@[digest(self.slots@[self.order@[i]].0@)]@.contains(self.order@[i])
                    } by {
                        let u = self.order@[i];
                        if i == mid_order.len() {
                            assert(self.index@[d]@[before_push.len() as int] == t);
                        } else {
                            assert(u == mid_order[i]);
                            assert(mid_order[i] < t);
                            assert(self.slots@[u] == mid_slots[u]);
                            let du = digest(mid_slots[u].0@);
                            assert(mid_index.contains_key(digest(mid_slots[mid_order[i]].0@)));
                            assert(mid_index.contains_key(du) && mid_index[du]@.contains(u));
                            if du == d {
                                let q = choose|q: int| 0 <= q < before_push.len() && before_push[q] == u;
                                assert(self.index@[d]@[q] == u);
                            }
                        }
                    }
                    assert forall|dd: u64, j: int|
                        self.index@.contains_key(dd) && 0 <= j < self.index@[dd]@.len() implies {
                        &&& self.order@.contains(#[trigger] self.index@[dd]@[j])
                        &&& digest(self.slots@[self.index@[dd]@[j]].0@) == dd
                    } by {
                        let u = self.index@[dd]@[j];
                        if dd == d && j == before_push.len() {
                            assert(u == t);
                            assert(self.order@[mid_order.len() as int] == t);
                        } else {
                            if dd == d {
                                assert(u == mid_index[d]@[j]);
                            } else {
                                assert(self.index@[dd] == mid_index[dd]);
                                assert(u == mid_index[dd]@[j]);
                            }
                            assert(mid_order.contains(u));
                            let q = choose|q: int| 0 <= q < mid_order.len() && mid_order[q] == u;
                            assert(mid_order[q] < t);
                            assert(self.order@[q] == u);
                            assert(self.slots@[u] == mid_slots[u]);
                        }
                    }
                    assert forall|dd: u64, j: int, l: int|
                        self.index@.contains_key(dd) && 0 <= j < l < self.index@[dd]@.len() implies #[trigger] self.index@[dd]@[j]
                        != #[trigger] self.index@[dd]@[l] by {
                        if dd == d {
                            if l < before_push.len() {
                                assert(mid_index[d]@[j] != mid_index[d]@[l]);
                            } else {
                                let u = mid_index[d]@[j];
                                assert(mid_order.contains(u));
                                let q = choose|q: int| 0 <= q < mid_order.len() && mid_order[q] == u;
                                assert(mid_order[q] < t);
                            }
                        } else {
                            assert(self.index@[dd] == mid_index[dd]);
                            assert(mid_index[dd]@[j] != mid_index[dd]@[l]);
                        }
                    }
                    assert forall|i: int, j: int|
                        0 <= i < j < self.order@.len() implies #[trigger] self.order@[i]
                        != #[trigger] self.order@[j] by {
                        if j == mid_order.len() {
                            assert(mid_order[i] < t);
                        } else {
                            assert(mid_order[i] != mid_order[j]);
                        }
                    }
                    assert(self@ =~= mid.push((k, value))) by {
                        assert forall|i: int| 0 <= i < mid.len() implies self@[i] == mid[i] by {
                            let u = mid_order[i];
                            assert(self.order@[i] == u);
                            assert(u < t);
                            assert(self.slots@[u] == mid_slots[u]);
                        }
                    }
                    assert(self@ =~= inserted(s0, self.cap as nat, self.kind, k, value));
                }
            },
        }
    }
}

/// The cache a configuration asks for: none when the setting is `None` or
/// `Some(0)`, else an empty cache of that capacity.
pub fn cache_for<T: Copy>(setting: Option<usize>, kind: CacheKind) -> (c: Option<ObjectiveCache<T>>)
    ensures
        c is None <==> (setting is None || setting == Some(0usize)),
        c matches Some(cache) ==> cache.wf() && cache.stores() == 0 && cache@.len() == 0 && setting == Some(
            cache.capacity() as usize,
        ) && cache.policy() == kind,
{
    match setting {
        Some(n) => {
            if n > 0 {
                Some(ObjectiveCache::new(n, kind))
            } else {
                None
            }
        },
        None => None,
    }
}

/// Whether two keys hold the same bit patterns.
fn same_key(a: &[u64], b: &[u64]) -> (r: bool)
    ensures
        r == (a@ == b@),
{
    if a.len() != b.len() {
        return false;
    }
    let mut i: usize = 0;
    while i < a.len()
        invariant
            a@.len() == b@.len(),
            i <= a@.len(),
            forall|j: int| 0 <= j < i ==> a@[j] == b@[j],
        decreases a@.len() - i,
    {
        if a[i] != b[i] {
            return false;
        }
        i = i + 1;
    }
    assert(a@ =~= b@);
    true
}

proof fn lemma_key_index_unique<T>(s: Entries<T>, key: Seq<u64>, p: int)
    requires
        distinct_keys(s),
        0 <= p < s.len(),
        s[p].0 == key,
    ensures
        has_key(s, key),
        key_index(s, key) == p,
{
    assert(has_key(s, key));
    let q = key_index(s, key);
    if q != p {
        if q < p {
            assert(s[q].0 != s[p].0);
        } else {
            assert(s[p].0 != s[q].0);
        }
    }
}

/// Storing a value keeps keys distinct and the cache within its capacity.
pub proof fn lemma_inserted_wf<T>(
    s: Entries<T>,
    cap: nat,
    kind: CacheKind,
    key: Seq<u64>,
    value: T,
)
    requires
        distinct_keys(s),
        s.len() <= cap,
    ensures
        distinct_keys(inserted(s, cap, kind, key, value)),
        inserted(s, cap, kind, key, value).len() <= cap,
{
    let t = inserted(s, cap, kind, key, value);
    if cap == 0 {
    } else if has_key(s, key) {
        let p = key_index(s, key);
        assert forall|i: int, j: int| 0 <= i < j < t.len() implies (#[trigger] t[i]).0 != (
        #[trigger] t[j]).0 by {
            assert(s[i].0 != s[j].0);
        }
    } else if s.len() >= cap {
        match kind {
            CacheKind::FirstIterator => {
                assert forall|i: int, j: int| 0 <= i < j < t.len() implies (#[trigger] t[i]).0 != (
                #[trigger] t[j]).0 by {
                    if j < t.len() - 1 {
                        assert(s[i + 1].0 != s[j + 1].0);
                    } else {
                        assert(s[i + 1].0 != key);
                    }
                }
            },
            CacheKind::Bucket => {},
        }
    } else {
        assert forall|i: int, j: int| 0 <= i < j < t.len() implies (#[trigger] t[i]).0 != (
        #[trigger] t[j]).0 by {
            if j < t.len() - 1 {
                assert(s[i].0 != s[j].0);
            } else {
                assert(s[i].0 != key);
            }
        }
    }
}

/// A read after a write gives back what was written, whenever the cache can
/// hold anything.
pub proof fn lemma_lookup_after_insert<T>(
    s: Entries<T>,
    cap: nat,
    kind: CacheKind,
    key: Seq<u64>,
    value: T,
)
    requires
        distinct_keys(s),
        s.len() <= cap,
        cap > 0,
    ensures
        lookup(inserted(s, cap, kind, key, value), key) == Some(value),
{
    lemma_inserted_wf(s, cap, kind, key, value);
    let t = inserted(s, cap, kind, key, value);
    let p = if has_key(s, key) {
        key_index(s, key)
    } else {
        t.len() - 1
    };
    lemma_key_index_unique(t, key, p);
}

/// Storing a value for one key leaves the value of every other key as it was,
/// or drops it when the store evicted; nothing is dropped unless the key was
/// new and the cache full.
pub proof fn lemma_insert_keeps_other_keys<T>(
    s: Entries<T>,
    cap: nat,
    kind: CacheKind,
    key: Seq<u64>,
    value: T,
    other: Seq<u64>,
)
    requires
        distinct_keys(s),
        s.len() <= cap,
        other != key,
    ensures
        lookup(inserted(s, cap, kind, key, value), other) == lookup(s, other) || lookup(
            inserted(s, cap, kind, key, value),
            other,
        ) is None,
        cap == 0 || has_key(s, key) || s.len() < cap ==> lookup(
            inserted(s, cap, kind, key, value),
            other,
        ) == lookup(s, other),
{
    lemma_inserted_wf(s, cap, kind, key, value);
    let t = inserted(s, cap, kind, key, value);
    if has_key(t, other) {
        let q = key_index(t, other);
        let p: int = if cap == 0 || has_key(s, key) || s.len() < cap {
            q
        } else {
            q + 1
        };
        if cap > 0 && !has_key(s, key) && s.len() >= cap && kind == CacheKind::Bucket {
            assert(t[q].0 == key);
        } else {
            assert(s[p].0 == other);
            lemma_key_index_unique(s, other, p);
        }
    } else if has_key(s, other) {
        let p = key_index(s, other);
        if cap == 0 {
            assert(t[p].0 == other);
        } else if has_key(s, key) {
            assert(t[p].0 == other);
        } else if s.len() < cap {
            assert(t[p].0 == other);
        }
    }
}

/// `FirstIterator`, full, with a new key: the oldest entry goes, every other
/// entry keeps its value, and the size stays at the capacity.
pub proof fn lemma_first_iterator_evicts_oldest<T>(
    s: Entries<T>,
    cap: nat,
    key: Seq<u64>,
    value: T,
)
    requires
        distinct_keys(s),
        s.len() == cap,
        cap > 0,
        !has_key(s, key),
    ensures
        !has_key(inserted(s, cap, CacheKind::FirstIterator, key, value), s[0].0),
        forall|i: int|
            1 <= i < s.len() ==> lookup(
                inserted(s, cap, CacheKind::FirstIterator, key, value),
                (#[trigger] s[i]).0,
            ) == Some(s[i].1),
        inserted(s, cap, CacheKind::FirstIterator, key, value).len() == cap,
        inserted(s, cap, CacheKind::FirstIterator, key, value)[cap - 1] == (key, value),
        forall|i: int|
            1 <= i < s.len() ==> #[trigger] inserted(s, cap, CacheKind::FirstIterator, key, value)[i
                - 1] == s[i],
{
    let t = inserted(s, cap, CacheKind::FirstIterator, key, value);
    lemma_inserted_wf(s, cap, CacheKind::FirstIterator, key, value);
    if has_key(t, s[0].0) {
        let q = key_index(t, s[0].0);
        if q < t.len() - 1 {
            assert(s[0].0 != s[q + 1].0);
        }
    }
    assert forall|i: int| 1 <= i < s.len() implies lookup(t, (#[trigger] s[i]).0) == Some(
        s[i].1,
    ) by {
        assert(t[i - 1] == s[i]);
        lemma_key_index_unique(t, s[i].0, i - 1);
    }
}

/// `Bucket`, full, with a new key: only the new entry remains.
pub proof fn lemma_bucket_clears_when_full<T>(
    s: Entries<T>,
    cap: nat,
    key: Seq<u64>,
    value: T,
    other: Seq<u64>,
)
    requires
        s.len() == cap,
        cap > 0,
        !has_key(s, key),
        other != key,
    ensures
        inserted(s, cap, CacheKind::Bucket, key, value).len() == 1,
        lookup(inserted(s, cap, CacheKind::Bucket, key, value), other) is None,
{
}

/// Storing again under a key already present does not change the size.
pub proof fn lemma_reinsert_keeps_len<T>(
    s: Entries<T>,
    cap: nat,
    kind: CacheKind,
    key: Seq<u64>,
    value: T,
)
    requires
        has_key(s, key),
    ensures
        inserted(s, cap, kind, key, value).len() == s.len(),
{
}

/// Overwriting a key present in a cache that holds anything keeps every
/// entry in its place: only that key's value changes, and its entry stays
/// where it was in the eviction order.
pub proof fn lemma_overwrite_keeps_order<T>(
    s: Entries<T>,
    cap: nat,
    kind: CacheKind,
    key: Seq<u64>,
    value: T,
)
    requires
        distinct_keys(s),
        cap > 0,
        has_key(s, key),
    ensures
        inserted(s, cap, kind, key, value).len() == s.len(),
        forall|j: int|
            0 <= j < s.len() && j != key_index(s, key) ==> #[trigger] inserted(
                s,
                cap,
                kind,
                key,
                value,
            )[j] == s[j],
        inserted(s, cap, kind, key, value)[key_index(s, key)] == (key, value),
{
}

/// Storing a new key in a cache below its capacity removes nothing: the new
/// entry goes last.
pub proof fn lemma_no_eviction_below_capacity<T>(
    s: Entries<T>,
    cap: nat,
    kind: CacheKind,
    key: Seq<u64>,
    value: T,
)
    requires
        s.len() < cap,
        !has_key(s, key),
    ensures
        inserted(s, cap, kind, key, value) == s.push((key, value)),
{
}

/// The entries after storing each `(key, value)` of `stores` in turn into an
/// empty cache of capacity `cap`.
pub open spec fn replay<T>(stores: Entries<T>, cap: nat, kind: CacheKind) -> Entries<T>
    decreases stores.len(),
{
    if stores.len() == 0 {
        Seq::empty()
    } else {
        inserted(replay(stores.drop_last(), cap, kind), cap, kind, stores.last().0, stores.last().1)
    }
}

/// First in, first out: after storing distinct keys one by one into an empty
/// `FirstIterator` cache, the cache holds exactly the last `cap` of them (all
/// of them when there are fewer), oldest first.
pub proof fn lemma_first_iterator_keeps_last_stores<T>(stores: Entries<T>, cap: nat)
    requires
        cap > 0,
        distinct_keys(stores),
    ensures
        replay(stores, cap, CacheKind::FirstIterator) == stores.subrange(
            if stores.len() > cap {
                stores.len() - cap
            } else {
                0
            },
            stores.len() as int,
        ),
    decreases stores.len(),
{
    let n = stores.len() as int;
    if n > 0 {
        let prev = stores.drop_last();
        assert forall|i: int, j: int| 0 <= i < j < prev.len() implies (#[trigger] prev[i]).0 != (
        #[trigger] prev[j]).0 by {
            assert(stores[i].0 != stores[j].0);
        }
        lemma_first_iterator_keeps_last_stores(prev, cap);
        let m0: int = if n - 1 > cap {
            n - 1 - cap
        } else {
            0
        };
        let r = replay(prev, cap, CacheKind::FirstIterator);
        assert(r =~= stores.subrange(m0, n - 1));
        let key = stores.last().0;
        let value = stores.last().1;
        assert(!has_key(r, key)) by {
            if has_key(r, key) {
                let i = choose|i: int| 0 <= i < r.len() && (#[trigger] r[i]).0 == key;
                assert(r[i] == stores[m0 + i]);
                assert(stores[m0 + i].0 != stores[n - 1].0);
            }
        }
        let m: int = if n > cap {
            n - cap
        } else {
            0
        };
        if r.len() >= cap {
            assert(replay(stores, cap, CacheKind::FirstIterator) == r.drop_first().push((key, value)));
            assert(r.drop_first().push((key, value)) =~= stores.subrange(m, n));
        } else {
            assert(replay(stores, cap, CacheKind::FirstIterator) == r.push((key, value)));
            assert(r.push((key, value)) =~= stores.subrange(m, n));
        }
    }
}

/// Bucket eviction: after storing distinct keys one by one into an empty
/// `Bucket` cache, the cache holds the stores made since it last filled up
/// and was cleared: the last `(n - 1) % cap + 1` of the `n` stores.
pub proof fn lemma_bucket_keeps_stores_since_last_clear<T>(stores: Entries<T>, cap: nat)
    requires
        cap > 0,
        stores.len() > 0,
        distinct_keys(stores),
    ensures
        replay(stores, cap, CacheKind::Bucket) == stores.subrange(
            stores.len() - ((stores.len() - 1) % (cap as int) + 1),
            stores.len() as int,
        ),
    decreases stores.len(),
{
    let n = stores.len() as int;
    let c = cap as int;
    let key = stores.last().0;
    let value = stores.last().1;
    if n == 1 {
        assert(replay(stores.drop_last(), cap, CacheKind::Bucket) =~= Seq::<(Seq<u64>, T)>::empty());
        assert((0int % c) == 0) by (nonlinear_arith)
            requires
                c > 0,
        ;
        assert(seq![(key, value)] =~= stores.subrange(0, 1));
        assert(Seq::<(Seq<u64>, T)>::empty().push((key, value)) =~= stores.subrange(0, 1));
    } else {
        let prev = stores.drop_last();
        assert forall|i: int, j: int| 0 <= i < j < prev.len() implies (#[trigger] prev[i]).0 != (
        #[trigger] prev[j]).0 by {
            assert(stores[i].0 != stores[j].0);
        }
        lemma_bucket_keeps_stores_since_last_clear(prev, cap);
        let k0 = (n - 2) % c + 1;
        assert(0 <= (n - 2) % c <= n - 2) by (nonlinear_arith)
            requires
                c > 0,
                n >= 2,
        ;
        let r = replay(prev, cap, CacheKind::Bucket);
        assert(prev.len() - ((prev.len() - 1) % c + 1) == n - 1 - k0);
        assert(prev.subrange(n - 1 - k0, n - 1) =~= stores.subrange(n - 1 - k0, n - 1));
        assert(r =~= stores.subrange(n - 1 - k0, n - 1));
        assert(!has_key(r, key)) by {
            if has_key(r, key) {
                let i = choose|i: int| 0 <= i < r.len() && (#[trigger] r[i]).0 == key;
                assert(r[i] == stores[n - 1 - k0 + i]);
                assert(stores[n - 1 - k0 + i].0 != stores[n - 1].0);
            }
        }
        assert(0 <= (n - 2) % c < c) by (nonlinear_arith)
            requires
                c > 0,
        ;
        if k0 >= c {
            assert((n - 2) % c == c - 1);
            assert((n - 1) % c == 0) by (nonlinear_arith)
                requires
                    c > 0,
                    (n - 2) % c == c - 1,
            ;
            assert(replay(stores, cap, CacheKind::Bucket) == seq![(key, value)]);
            assert(seq![(key, value)] =~= stores.subrange(n - 1, n));
        } else {
            assert((n - 1) % c == (n - 2) % c + 1) by (nonlinear_arith)
                requires
                    c > 0,
                    (n - 2) % c + 1 < c,
                    0 <= (n - 2) % c,
            ;
            assert(replay(stores, cap, CacheKind::Bucket) == r.push((key, value)));
            assert(r.push((key, value)) =~= stores.subrange(n - 1 - k0, n));
        }
    }
}

} // verus!
