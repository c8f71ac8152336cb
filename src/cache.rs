use vstd::prelude::*;
use vstd::seq_lib::seq_to_set_is_finite;
use vstd::string::StrSliceExecFns;
use vstd::string::StringExecFns;

verus! {

/// The bookkeeping kept beside each value.
#[derive(Clone, Copy, Debug, PartialEq, Eq)]
pub struct Meta {
    /// How long the entry lives, in milliseconds; `None` for ever.
    pub ttl: Option<u64>,
    /// When the entry was written, in milliseconds.
    pub insertion_time: u64,
    /// How many reads have found the entry.
    pub frequency: u64,
    /// How stale the entry is: 1 right after it is read or written.
    pub recency: u64,
}

/// The model of one entry.
pub struct CacheEntry {
    pub value: Seq<char>,
    pub meta: Meta,
}

/// A key/value store of bounded size, with time-to-live and least-recently-used
/// eviction.
pub struct Cache {
    keys: Vec<String>,
    values: Vec<String>,
    meta: Vec<Meta>,
    maximum: usize,
}

/// Adds one, stopping at the largest value.
pub open spec fn bump(r: u64) -> u64 {
    if r == u64::MAX {
        r
    } else {
        (r + 1) as u64
    }
}

/// `m` with its recency one step larger.
pub open spec fn staler(m: Meta) -> Meta {
    Meta {
        ttl: m.ttl,
        insertion_time: m.insertion_time,
        frequency: m.frequency,
        recency: bump(m.recency),
    }
}

/// `e` one step staler.
pub open spec fn older(e: CacheEntry) -> CacheEntry {
    CacheEntry { value: e.value, meta: staler(e.meta) }
}

/// Every entry but the one of `k` one step staler.
pub open spec fn aged(m: Map<Seq<char>, CacheEntry>, k: Seq<char>) -> Map<Seq<char>, CacheEntry> {
    Map::new(
        |x: Seq<char>| m.contains_key(x),
        |x: Seq<char>|
            if x == k {
                m[x]
            } else {
                older(m[x])
            },
    )
}

/// `e` just after a successful read.
pub open spec fn touched(e: CacheEntry) -> CacheEntry {
    CacheEntry {
        value: e.value,
        meta: Meta {
            ttl: e.meta.ttl,
            insertion_time: e.meta.insertion_time,
            frequency: bump(e.meta.frequency),
            recency: 1,
        },
    }
}

/// The entry that a write of `value` at time `now` leaves.
pub open spec fn fresh(value: Seq<char>, ttl: Option<u64>, now: u64) -> CacheEntry {
    CacheEntry {
        value,
        meta: Meta { ttl, insertion_time: now, frequency: 0, recency: 1 },
    }
}

/// `e` has outlived its time-to-live at time `now`.
pub open spec fn expired(e: CacheEntry, now: u64) -> bool {
    &&& e.meta.ttl is Some
    &&& now > e.meta.insertion_time
    &&& now - e.meta.insertion_time > e.meta.ttl->0
}

/// `v` is a key of `m` with the largest recency.
pub open spec fn is_lru_victim(m: Map<Seq<char>, CacheEntry>, v: Seq<char>) -> bool {
    &&& m.contains_key(v)
    &&& forall|x: Seq<char>| #[trigger]
        m.contains_key(x) ==> m[x].meta.recency <= m[v].meta.recency
}

/// What a read of `key` at time `now` does to `m`, giving `m2` and the value `r`: the
/// other entries grow staler; an expired entry is dropped; a live one is counted as
/// read, becomes the freshest, and its value is given.
pub open spec fn read_outcome(
    m: Map<Seq<char>, CacheEntry>,
    key: Seq<char>,
    now: u64,
    m2: Map<Seq<char>, CacheEntry>,
    r: Option<Seq<char>>,
) -> bool {
    if !m.contains_key(key) {
        r is None && m2 == aged(m, key)
    } else if expired(m[key], now) {
        r is None && m2 == aged(m, key).remove(key)
    } else {
        r == Some(m[key].value) && m2 == aged(m, key).insert(key, touched(m[key]))
    }
}

/// The value that a read of `key` at time `now` gives.
pub open spec fn read_result(m: Map<Seq<char>, CacheEntry>, key: Seq<char>, now: u64) -> Option<
    Seq<char>,
> {
    if m.contains_key(key) && !expired(m[key], now) {
        Some(m[key].value)
    } else {
        None
    }
}

/// What a write of `value` under `key` at time `now` does to `m`, in a cache of capacity
/// `cap`, giving `m2`: the other entries grow staler, and a new key in a full cache
/// first pushes out an entry with the largest recency.
pub open spec fn write_outcome(
    m: Map<Seq<char>, CacheEntry>,
    cap: nat,
    key: Seq<char>,
    value: Seq<char>,
    ttl: Option<u64>,
    now: u64,
    m2: Map<Seq<char>, CacheEntry>,
) -> bool {
    if cap == 0 {
        m2 == m
    } else if m.contains_key(key) || m.len() < cap {
        m2 == aged(m, key).insert(key, fresh(value, ttl, now))
    } else {
        exists|v: Seq<char>|
            is_lru_victim(m, v) && m2 == aged(m, key).remove(v).insert(key, fresh(value, ttl, now))
    }
}

impl Cache {
    spec fn holds(&self, i: int, k: Seq<char>) -> bool {
        0 <= i < self.keys@.len() && self.keys@[i]@ == k
    }

    spec fn entry_at(&self, i: int) -> CacheEntry {
        CacheEntry { value: self.values@[i]@, meta: self.meta@[i] }
    }

    spec fn key_views(&self) -> Seq<Seq<char>> {
        self.keys@.map_values(|s: String| s@)
    }

    /// The entries, by key.
    pub closed spec fn view(&self) -> Map<Seq<char>, CacheEntry> {
        Map::new(
            |k: Seq<char>| exists|i: int| self.holds(i, k),
            |k: Seq<char>| self.entry_at(choose|i: int| self.holds(i, k)),
        )
    }

    /// The most entries the cache holds.
    pub closed spec fn capacity(&self) -> nat {
        self.maximum as nat
    }

    /// Keys are unique, at most `capacity` of them, and every recency is at least 1.
    pub closed spec fn wf(&self) -> bool {
        &&& self.values@.len() == self.keys@.len()
        &&& self.meta@.len() == self.keys@.len()
        &&& self.keys@.len() <= self.maximum
        &&& forall|i: int, j: int|
            0 <= i < self.keys@.len() && 0 <= j < self.keys@.len() && #[trigger] self.keys@[i]@
                == #[trigger] self.keys@[j]@ ==> i == j
        &&& forall|i: int| 0 <= i < self.meta@.len() ==> #[trigger] self.meta@[i].recency >= 1
    }

    proof fn lemma_view_at(&self, i: int)
        requires
            self.wf(),
            0 <= i < self.keys@.len(),
        ensures
            self@.contains_key(self.keys@[i]@),
            self@[self.keys@[i]@] == self.entry_at(i),
    {
        let k = self.keys@[i]@;
        assert(self.holds(i, k));
        let j = choose|j: int| self.holds(j, k);
        assert(self.keys@[j]@ == self.keys@[i]@);
    }

    proof fn lemma_view_dom(&self)
        requires
            self.wf(),
        ensures
            self@.dom() == self.key_views().to_set(),
            self@.dom().finite(),
            self@.len() == self.keys@.len(),
            forall|k: Seq<char>| #[trigger]
                self@.contains_key(k) ==> exists|i: int| self.holds(i, k),
    {
        let ks = self.key_views();
        assert forall|k: Seq<char>| self@.dom().contains(k) <==> ks.to_set().contains(k) by {
            if self@.dom().contains(k) {
                let i = choose|i: int| self.holds(i, k);
                assert(ks[i] == k);
            }
            if ks.to_set().contains(k) {
                let i = choose|i: int| 0 <= i < ks.len() && ks[i] == k;
                assert(self.holds(i, k));
            }
        }
        assert(self@.dom() =~= ks.to_set());
        seq_to_set_is_finite(ks);
        assert(ks.no_duplicates()) by {
            assert forall|i: int, j: int| 0 <= i < ks.len() && 0 <= j < ks.len() && i != j implies ks[i]
                != ks[j] by {
                assert(ks[i] == self.keys@[i]@);
                assert(ks[j] == self.keys@[j]@);
            }
        }
        ks.unique_seq_to_set();
    }

    /// An empty cache that holds at most `maximum` entries.
    pub fn new(maximum: usize) -> (r: Cache)
        ensures
            r.wf(),
            r@ == Map::<Seq<char>, CacheEntry>::empty(),
            r.capacity() == maximum,
    {
        let r = Cache { keys: Vec::new(), values: Vec::new(), meta: Vec::new(), maximum };
        assert(r@ =~= Map::<Seq<char>, CacheEntry>::empty());
        r
    }

    /// The place of `key`, if it is held.
    fn find(&self, key: &String) -> (r: Option<usize>)
        requires
            self.wf(),
        ensures
            r matches Some(i) ==> self.holds(i as int, key@),
            r is None ==> !self@.contains_key(key@),
    {
        let mut i: usize = 0;
        while i < self.keys.len()
            invariant
                self.wf(),
                i <= self.keys@.len(),
                forall|j: int| 0 <= j < i ==> self.keys@[j]@ != key@,
            decreases self.keys.len() - i,
        {
            if self.keys[i] == *key {
                return Some(i);
            }
            i += 1;
        }
        None
    }

    /// Makes every entry but the one of `key` one step staler.
    pub fn update_aging(&mut self, key: &str)
        requires
            old(self).wf(),
        ensures
            final(self).wf(),
            final(self).capacity() == old(self).capacity(),
            final(self)@ == aged(old(self)@, key@),
    {
        self.age_entries(key);
    }

    fn age_entries(&mut self, key: &str)
        requires
            old(self).wf(),
        ensures
            final(self).wf(),
            final(self).maximum == old(self).maximum,
            final(self).keys@ == old(self).keys@,
            final(self)@ == aged(old(self)@, key@),
    {
        let k = String::from_str(key);
        let mut i: usize = 0;
        while i < self.meta.len()
            invariant
                self.wf(),
                self.maximum == old(self).maximum,
                self.keys@ == old(self).keys@,
                self.values@ == old(self).values@,
                self.meta@.len() == old(self).meta@.len(),
                i <= self.meta@.len(),
                k@ == key@,
                forall|j: int|
                    0 <= j < i ==> #[trigger] self.meta@[j] == (if self.keys@[j]@ == key@ {
                        old(self).meta@[j]
                    } else {
                        staler(old(self).meta@[j])
                    }),
                forall|j: int| i <= j < self.meta@.len() ==> #[trigger] self.meta@[j] == old(
                    self,
                ).meta@[j],
            decreases self.meta.len() - i,
        {
            if self.keys[i] != k {
                let m = self.meta[i];
                let recency = if m.recency == u64::MAX {
                    m.recency
                } else {
                    m.recency + 1
                };
                self.meta.set(
                    i,
                    Meta {
                        ttl: m.ttl,
                        insertion_time: m.insertion_time,
                        frequency: m.frequency,
                        recency,
                    },
                );
            }
            i += 1;
        }
        proof {
            let m = old(self)@;
            assert forall|x: Seq<char>| #[trigger] self@.contains_key(x) <==> m.contains_key(x) by {
                if self@.contains_key(x) {
                    let j = choose|j: int| self.holds(j, x);
                    old(self).lemma_view_at(j);
                }
                if m.contains_key(x) {
                    old(self).lemma_view_dom();
                    let j = choose|j: int| old(self).holds(j, x);
                    self.lemma_view_at(j);
                }
            }
            assert forall|x: Seq<char>| #[trigger] self@.contains_key(x) implies self@[x] == aged(
                m,
                key@,
            )[x] by {
                let j = choose|j: int| self.holds(j, x);
                self.lemma_view_at(j);
                old(self).lemma_view_at(j);
            }
            assert(self@ =~= aged(m, key@));
        }
    }
}

impl Cache {
    /// Drops the entry at place `i`.
    #[verifier::rlimit(30)]
    fn remove_at(&mut self, i: usize)
        requires
            old(self).wf(),
            i < old(self).keys@.len(),
        ensures
            final(self).wf(),
            final(self).maximum == old(self).maximum,
            final(self).keys@ == old(self).keys@.remove(i as int),
            final(self)@ == old(self)@.remove(old(self).keys@[i as int]@),
    {
        let ghost key = self.keys@[i as int]@;
        self.keys.remove(i);
        self.values.remove(i);
        self.meta.remove(i);
        proof {
            let o = old(self);
            assert forall|a: int, b: int|
                0 <= a < self.keys@.len() && 0 <= b < self.keys@.len() && #[trigger] self.keys@[a]@
                    == #[trigger] self.keys@[b]@ implies a == b by {
                let oa = if a < i { a } else { a + 1 };
                let ob = if b < i { b } else { b + 1 };
                assert(o.keys@[oa]@ == o.keys@[ob]@);
            }
            assert forall|a: int| 0 <= a < self.meta@.len() implies #[trigger] self.meta@[a].recency
                >= 1 by {
                let oa = if a < i { a } else { a + 1 };
                assert(o.meta@[oa].recency >= 1);
            }
            assert(self.wf());
            let target = o@.remove(key);
            assert forall|x: Seq<char>| #[trigger] self@.contains_key(x) <==> target.contains_key(x) by {
                if self@.contains_key(x) {
                    let a = choose|a: int| self.holds(a, x);
                    let oa = if a < i { a } else { a + 1 };
                    o.lemma_view_at(oa);
                    if x == key {
                        assert(o.keys@[oa]@ == o.keys@[i as int]@);
                    }
                }
                if target.contains_key(x) {
                    o.lemma_view_dom();
                    let oa = choose|oa: int| o.holds(oa, x);
                    assert(oa != i);
                    let a = if oa < i { oa } else { oa - 1 };
                    assert(self.holds(a, x));
                }
            }
            assert forall|x: Seq<char>| #[trigger] self@.contains_key(x) implies self@[x]
                == target[x] by {
                let a = choose|a: int| self.holds(a, x);
                let oa = if a < i { a } else { a + 1 };
                self.lemma_view_at(a);
                o.lemma_view_at(oa);
            }
            assert(self@ =~= target);
        }
    }

    /// Adds an entry for a key that is not held, where there is room.
    #[verifier::rlimit(30)]
    fn push_entry(&mut self, key: String, value: String, meta: Meta)
        requires
            old(self).wf(),
            !old(self)@.contains_key(key@),
            old(self).keys@.len() < old(self).maximum,
            meta.recency >= 1,
        ensures
            final(self).wf(),
            final(self).maximum == old(self).maximum,
            final(self)@ == old(self)@.insert(key@, CacheEntry { value: value@, meta }),
    {
        let ghost kv = key@;
        let ghost vv = value@;
        let ghost n = self.keys@.len() as int;
        proof {
            let o = *self;
            assert forall|a: int| 0 <= a < n implies o.keys@[a]@ != kv by {
                o.lemma_view_at(a);
            }
        }
        self.keys.push(key);
        self.values.push(value);
        self.meta.push(meta);
        proof {
            let o = old(self);
            assert forall|a: int, b: int|
                0 <= a < self.keys@.len() && 0 <= b < self.keys@.len() && #[trigger] self.keys@[a]@
                    == #[trigger] self.keys@[b]@ implies a == b by {
                if a < n && b < n {
                    assert(o.keys@[a]@ == o.keys@[b]@);
                }
            }
            assert forall|a: int| 0 <= a < self.meta@.len() implies #[trigger] self.meta@[a].recency
                >= 1 by {
                if a < n {
                    assert(o.meta@[a].recency >= 1);
                }
            }
            assert(self.wf());
            let target = o@.insert(kv, CacheEntry { value: vv, meta });
            assert forall|x: Seq<char>| #[trigger] self@.contains_key(x) <==> target.contains_key(x) by {
                if self@.contains_key(x) {
                    let a = choose|a: int| self.holds(a, x);
                    if a < n {
                        o.lemma_view_at(a);
                    }
                }
                if target.contains_key(x) {
                    if x == kv {
                        assert(self.holds(n, x));
                    } else {
                        o.lemma_view_dom();
                        let a = choose|a: int| o.holds(a, x);
                        assert(self.holds(a, x));
                    }
                }
            }
            assert forall|x: Seq<char>| #[trigger] self@.contains_key(x) implies self@[x]
                == target[x] by {
                let a = choose|a: int| self.holds(a, x);
                self.lemma_view_at(a);
                if a < n {
                    o.lemma_view_at(a);
                }
            }
            assert(self@ =~= target);
        }
    }

    /// Replaces the value and bookkeeping at place `i`.
    #[verifier::rlimit(30)]
    fn replace_at(&mut self, i: usize, value: String, meta: Meta)
        requires
            old(self).wf(),
            i < old(self).keys@.len(),
            meta.recency >= 1,
        ensures
            final(self).wf(),
            final(self).maximum == old(self).maximum,
            final(self)@ == old(self)@.insert(
                old(self).keys@[i as int]@,
                CacheEntry { value: value@, meta },
            ),
    {
        let ghost kv = self.keys@[i as int]@;
        let ghost vv = value@;
        self.values.set(i, value);
        self.meta.set(i, meta);
        proof {
            let o = old(self);
            assert(self.wf());
            let target = o@.insert(kv, CacheEntry { value: vv, meta });
            assert forall|x: Seq<char>| #[trigger] self@.contains_key(x) <==> target.contains_key(x) by {
                if self@.contains_key(x) {
                    let a = choose|a: int| self.holds(a, x);
                    o.lemma_view_at(a);
                }
                if target.contains_key(x) {
                    o.lemma_view_dom();
                    if x != kv {
                        let a = choose|a: int| o.holds(a, x);
                        assert(self.holds(a, x));
                    } else {
                        assert(self.holds(i as int, x));
                    }
                }
            }
            assert forall|x: Seq<char>| #[trigger] self@.contains_key(x) implies self@[x]
                == target[x] by {
                let a = choose|a: int| self.holds(a, x);
                self.lemma_view_at(a);
                o.lemma_view_at(a);
                if a != i {
                    assert(o.keys@[a]@ != o.keys@[i as int]@);
                }
            }
            assert(self@ =~= target);
        }
    }

    /// The place of an entry with the largest recency, the first such.
    fn find_victim(&self) -> (r: usize)
        requires
            self.wf(),
            self.keys@.len() > 0,
        ensures
            r < self.keys@.len(),
            is_lru_victim(self@, self.keys@[r as int]@),
    {
        let mut best: usize = 0;
        let mut i: usize = 1;
        while i < self.meta.len()
            invariant
                self.wf(),
                self.keys@.len() > 0,
                1 <= i <= self.meta@.len(),
                best < i,
                forall|j: int| 0 <= j < i ==> #[trigger] self.meta@[j].recency
                    <= self.meta@[best as int].recency,
            decreases self.meta.len() - i,
        {
            if self.meta[i].recency > self.meta[best].recency {
                best = i;
            }
            i += 1;
        }
        proof {
            self.lemma_view_at(best as int);
            assert forall|x: Seq<char>| #[trigger] self@.contains_key(x) implies self@[x].meta.recency
                <= self@[self.keys@[best as int]@].meta.recency by {
                self.lemma_view_dom();
                let j = choose|j: int| self.holds(j, x);
                self.lemma_view_at(j);
            }
        }
        best
    }

    /// The value of `key`, if it is held and has not expired at time `now`. Every
    /// other entry grows one step staler; an expired entry is dropped; a found one
    /// is counted as read and becomes the freshest.
    pub fn get(&mut self, key: &str, now: u64) -> (r: Option<String>)
        requires
            old(self).wf(),
        ensures
            final(self).wf(),
            final(self).capacity() == old(self).capacity(),
            read_outcome(
                old(self)@,
                key@,
                now,
                final(self)@,
                match r {
                    Some(v) => Some(v@),
                    None => None,
                },
            ),
    {
        self.update_aging(key);
        let k = String::from_str(key);
        match self.find(&k) {
            None => None,
            Some(i) => {
                proof {
                    self.lemma_view_at(i as int);
                }
                let m = self.meta[i];
                let stale = match m.ttl {
                    Some(t) => now > m.insertion_time && now - m.insertion_time > t,
                    None => false,
                };
                if stale {
                    self.remove_at(i);
                    None
                } else {
                    let value = self.values[i].clone();
                    let frequency = if m.frequency == u64::MAX {
                        m.frequency
                    } else {
                        m.frequency + 1
                    };
                    let v2 = self.values[i].clone();
                    self.replace_at(
                        i,
                        v2,
                        Meta {
                            ttl: m.ttl,
                            insertion_time: m.insertion_time,
                            frequency,
                            recency: 1,
                        },
                    );
                    Some(value)
                }
            },
        }
    }

    /// Writes `value` under `key` at time `now`. Every other entry grows one step
    /// staler. A new key in a full cache first pushes out the entry with the
    /// largest recency.
    #[verifier::rlimit(30)]
    pub fn set(&mut self, key: String, value: String, ttl: Option<u64>, now: u64)
        requires
            old(self).wf(),
        ensures
            final(self).wf(),
            final(self).capacity() == old(self).capacity(),
            write_outcome(old(self)@, old(self).capacity(), key@, value@, ttl, now, final(self)@),
    {
        proof {
            self.lemma_view_dom();
        }
        if self.maximum == 0 {
            return;
        }
        let found = self.find(&key);
        let victim: Option<usize> = if found.is_none() && self.keys.len() >= self.maximum {
            Some(self.find_victim())
        } else {
            None
        };
        let ghost vkey = match victim {
            Some(v) => self.keys@[v as int]@,
            None => Seq::empty(),
        };
        self.age_entries(key.as_str());
        let meta = Meta { ttl, insertion_time: now, frequency: 0, recency: 1 };
        match found {
            Some(i) => {
                proof {
                    old(self).lemma_view_at(i as int);
                    self.lemma_view_at(i as int);
                }
                self.replace_at(i, value, meta);
            },
            None => {
                match victim {
                    Some(v) => {
                        proof {
                            old(self).lemma_view_at(v as int);
                        }
                        self.remove_at(v);
                    },
                    None => {},
                }
                proof {
                    self.lemma_view_dom();
                    old(self).lemma_view_dom();
                }
                self.push_entry(key, value, meta);
            },
        }
    }
}

/// `c` separates words: a space, a tab, or a line or page break.
pub open spec fn is_separator(c: char) -> bool {
    c == ' ' || ('\t' <= c <= '\r')
}

fn separator(c: char) -> (r: bool)
    ensures
        r == is_separator(c),
{
    c == ' ' || ('\t' <= c && c <= '\r')
}

/// The number of characters before the first separator in `s`.
pub open spec fn word_len(s: Seq<char>) -> nat
    decreases s.len(),
{
    if s.len() == 0 || is_separator(s[0]) {
        0
    } else {
        1 + word_len(s.drop_first())
    }
}

proof fn lemma_word_len_bound(s: Seq<char>)
    ensures
        word_len(s) <= s.len(),
        s.len() > 0 && !is_separator(s[0]) ==> word_len(s) >= 1,
    decreases s.len(),
{
    if s.len() > 0 && !is_separator(s[0]) {
        lemma_word_len_bound(s.drop_first());
    }
}

/// The words of `s`: its runs of characters other than separators, in order.
pub open spec fn words(s: Seq<char>) -> Seq<Seq<char>>
    decreases s.len() via words_decreases
{
    if s.len() == 0 {
        seq![]
    } else if is_separator(s[0]) {
        words(s.drop_first())
    } else {
        seq![s.take(word_len(s) as int)] + words(s.skip(word_len(s) as int))
    }
}

#[via_fn]
proof fn words_decreases(s: Seq<char>) {
    lemma_word_len_bound(s);
}

/// The set of words of `s`.
pub open spec fn word_set(s: Seq<char>) -> Set<Seq<char>> {
    words(s).to_set()
}

proof fn lemma_word_len(u: Seq<char>, w: int)
    requires
        0 <= w <= u.len(),
        forall|t: int| 0 <= t < w ==> !is_separator(u[t]),
        w == u.len() || is_separator(u[w]),
    ensures
        word_len(u) == w,
    decreases w,
{
    if w > 0 {
        lemma_word_len(u.drop_first(), w - 1);
    }
}

/// Splits `s` into its words.
#[verifier::rlimit(30)]
pub fn split_words(s: &str) -> (r: Vec<String>)
    ensures
        r@.len() == words(s@).len(),
        forall|i: int| 0 <= i < r@.len() ==> (#[trigger] r@[i])@ == words(s@)[i],
{
    let n = s.unicode_len();
    let mut out: Vec<String> = Vec::new();
    let ghost mut done: Seq<Seq<char>> = seq![];
    let mut i: usize = 0;
    assert(s@.skip(0) =~= s@);
    while i < n
        invariant
            n == s@.len(),
            i <= n,
            out@.len() == done.len(),
            forall|t: int| 0 <= t < out@.len() ==> (#[trigger] out@[t])@ == done[t],
            done + words(s@.skip(i as int)) == words(s@),
        decreases n - i,
    {
        let c = s.get_char(i);
        if separator(c) {
            proof {
                assert(s@.skip(i as int).drop_first() =~= s@.skip(i + 1));
            }
            i += 1;
        } else {
            let mut j: usize = i + 1;
            while j < n && !separator(s.get_char(j))
                invariant
                    n == s@.len(),
                    i < j <= n,
                    forall|t: int| i <= t < j ==> !is_separator(s@[t]),
                decreases n - j,
            {
                j += 1;
            }
            let word = s.substring_char(i, j).to_owned();
            proof {
                let u = s@.skip(i as int);
                lemma_word_len(u, j - i);
                assert(u.take(j - i) =~= s@.subrange(i as int, j as int));
                assert(u.skip(j - i) =~= s@.skip(j as int));
                assert(done.push(word@) + words(s@.skip(j as int)) =~= done + words(u));
                done = done.push(word@);
            }
            out.push(word);
            i = j;
        }
    }
    proof {
        assert(s@.skip(n as int).len() == 0);
        assert(done =~= words(s@));
    }
    out
}

impl Cache {
    /// Drops the entry of each word of `key`; gives how many were held.
    #[verifier::rlimit(30)]
    pub fn remove(&mut self, key: &str) -> (r: usize)
        requires
            old(self).wf(),
        ensures
            final(self).wf(),
            final(self).capacity() == old(self).capacity(),
            final(self)@ == old(self)@.remove_keys(word_set(key@)),
            r == old(self)@.dom().intersect(word_set(key@)).len(),
    {
        let ws = split_words(key);
        let ghost all = words(key@);
        let mut count: usize = 0;
        let mut idx: usize = 0;
        proof {
            old(self).lemma_view_dom();
            assert(all.take(0).to_set() =~= Set::<Seq<char>>::empty());
            assert(old(self)@.remove_keys(Set::<Seq<char>>::empty()) =~= old(self)@);
            assert(old(self)@.dom().intersect(Set::<Seq<char>>::empty()) =~= Set::<
                Seq<char>,
            >::empty());
        }
        while idx < ws.len()
            invariant
                self.wf(),
                self.maximum == old(self).maximum,
                old(self)@.dom().finite(),
                ws@.len() == all.len(),
                forall|t: int| 0 <= t < ws@.len() ==> (#[trigger] ws@[t])@ == all[t],
                idx <= ws@.len(),
                count <= idx,
                self@ == old(self)@.remove_keys(all.take(idx as int).to_set()),
                count == old(self)@.dom().intersect(all.take(idx as int).to_set()).len(),
            decreases ws.len() - idx,
        {
            let ghost before = all.take(idx as int).to_set();
            let ghost w = all[idx as int];
            proof {
                assert(all.take(idx + 1) =~= all.take(idx as int).push(w));
                Seq::lemma_to_set_insert_commutes(all.take(idx as int), w);
                assert(all.take(idx as int) + seq![w] =~= all.take(idx + 1));
            }
            match self.find(&ws[idx]) {
                Some(i) => {
                    proof {
                        self.lemma_view_at(i as int);
                        let d = old(self)@.dom();
                        assert(d.intersect(before.insert(w)) =~= d.intersect(before).insert(w));
                    }
                    self.remove_at(i);
                    count += 1;
                    proof {
                        assert(self@ =~= old(self)@.remove_keys(before.insert(w)));
                    }
                },
                None => {
                    proof {
                        let d = old(self)@.dom();
                        assert(d.intersect(before.insert(w)) =~= d.intersect(before));
                        assert(self@ =~= old(self)@.remove_keys(before.insert(w)));
                    }
                },
            }
            idx += 1;
        }
        proof {
            assert(all.take(idx as int) =~= all);
        }
        count
    }

    /// The keys and the values, at the same places, in no particular order.
    pub fn snapshot(&self) -> (r: (Vec<String>, Vec<String>))
        requires
            self.wf(),
        ensures
            r.0@.len() == r.1@.len(),
            r.0@.len() == self@.len(),
            forall|i: int| 0 <= i < r.0@.len() ==> self@.contains_key(#[trigger] r.0@[i]@) && self@[r.0@[i]@].value
                == r.1@[i]@,
            forall|i: int, j: int|
                0 <= i < r.0@.len() && 0 <= j < r.0@.len() && i != j ==> #[trigger] r.0@[i]@
                    != #[trigger] r.0@[j]@,
    {
        let mut keys: Vec<String> = Vec::new();
        let mut vals: Vec<String> = Vec::new();
        let mut i: usize = 0;
        proof {
            self.lemma_view_dom();
        }
        while i < self.keys.len()
            invariant
                self.wf(),
                i <= self.keys@.len(),
                keys@.len() == i,
                vals@.len() == i,
                forall|j: int| 0 <= j < i ==> (#[trigger] keys@[j]) == self.keys@[j],
                forall|j: int| 0 <= j < i ==> (#[trigger] vals@[j]) == self.values@[j],
            decreases self.keys.len() - i,
        {
            keys.push(self.keys[i].clone());
            vals.push(self.values[i].clone());
            i += 1;
        }
        proof {
            assert forall|j: int| 0 <= j < keys@.len() implies self@.contains_key(#[trigger] keys@[j]@)
                && self@[keys@[j]@].value == vals@[j]@ by {
                self.lemma_view_at(j);
            }
        }
        (keys, vals)
    }

    /// The bookkeeping of the entry of `key`, if it is held.
    pub fn meta_of(&self, key: &str) -> (r: Option<Meta>)
        requires
            self.wf(),
        ensures
            r == if self@.contains_key(key@) {
                Some(self@[key@].meta)
            } else {
                None
            },
    {
        let k = String::from_str(key);
        match self.find(&k) {
            Some(i) => {
                proof {
                    self.lemma_view_at(i as int);
                }
                Some(self.meta[i])
            },
            None => None,
        }
    }

    /// The number of entries held.
    pub fn len(&self) -> (r: usize)
        requires
            self.wf(),
        ensures
            r == self@.len(),
    {
        proof {
            self.lemma_view_dom();
        }
        self.keys.len()
    }

    /// The most entries the cache holds.
    pub fn maximum(&self) -> (r: usize)
        ensures
            r == self.capacity(),
    {
        self.maximum
    }
}

/// A well-formed cache never holds more entries than its capacity; every operation
/// keeps the cache well formed, so this holds after any sequence of them.
pub proof fn lemma_capacity_bound(c: &Cache)
    requires
        c.wf(),
    ensures
        c@.len() <= c.capacity(),
{
    c.lemma_view_dom();
}

/// An entry written at time `t0` with a time-to-live of `m` milliseconds can be read
/// until `t0 + m` and has expired at any time from `t0 + 2 m` on; growing staler or
/// being read does not change that.
pub proof fn lemma_ttl_expiry(value: Seq<char>, m: u64, t0: u64, t: u64)
    requires
        m > 0,
    ensures
        t0 <= t <= t0 + m ==> !expired(fresh(value, Some(m), t0), t),
        !expired(fresh(value, Some(m), t0), t0),
        t >= t0 + 2 * m ==> expired(fresh(value, Some(m), t0), t),
        forall|e: CacheEntry|
            #![trigger older(e)]
            #![trigger touched(e)]
            expired(older(e), t) == expired(e, t) && expired(touched(e), t) == expired(e, t),
{
}

/// A key written with a time-to-live of `m` milliseconds at time `t0`, into a cache
/// that can hold anything, is read back at `t0` and is gone at any time from `t0 + 2 m`
/// on.
pub proof fn lemma_ttl_write_then_read(
    before: Map<Seq<char>, CacheEntry>,
    cap: nat,
    key: Seq<char>,
    value: Seq<char>,
    m: u64,
    t0: u64,
    after: Map<Seq<char>, CacheEntry>,
    t: u64,
)
    requires
        cap > 0,
        m > 0,
        write_outcome(before, cap, key, value, Some(m), t0, after),
    ensures
        read_result(after, key, t0) == Some(value),
        t >= t0 + 2 * m ==> read_result(after, key, t) is None,
{
    if !(before.contains_key(key) || before.len() < cap) {
        let v = choose|v: Seq<char>|
            is_lru_victim(before, v) && after == aged(before, key).remove(v).insert(
                key,
                fresh(value, Some(m), t0),
            );
    }
    assert(after[key] == fresh(value, Some(m), t0));
}

/// A read never lowers the frequency of an entry: not of those that grow staler, and
/// not of the one it finds, whose frequency grows by one until it reaches the largest
/// value.
pub proof fn lemma_frequency_monotone(m: Map<Seq<char>, CacheEntry>, key: Seq<char>, x: Seq<char>)
    requires
        m.contains_key(x),
    ensures
        aged(m, key)[x].meta.frequency == m[x].meta.frequency,
        aged(m, key).remove(key).contains_key(x) ==> aged(m, key).remove(key)[x].meta.frequency
            == m[x].meta.frequency,
        m.contains_key(key) ==> aged(m, key).insert(key, touched(m[key]))[x].meta.frequency
            >= m[x].meta.frequency,
        m.contains_key(key) && m[key].meta.frequency < u64::MAX ==> aged(m, key).insert(
            key,
            touched(m[key]),
        )[key].meta.frequency == m[key].meta.frequency + 1,
{
}

/// A write of a new key into a full cache drops exactly one other key, and that key
/// had the largest recency.
pub proof fn lemma_lru_victim(
    m: Map<Seq<char>, CacheEntry>,
    key: Seq<char>,
    e: CacheEntry,
    v: Seq<char>,
    x: Seq<char>,
)
    requires
        !m.contains_key(key),
        is_lru_victim(m, v),
        m.contains_key(x),
        !aged(m, key).remove(v).insert(key, e).contains_key(x),
    ensures
        x == v,
        forall|y: Seq<char>| #[trigger] m.contains_key(y) ==> m[y].meta.recency <= m[x].meta.recency,
{
}

} // verus!
