//! The intrinsic-size cache: measured `(main, cross)` pairs keyed by a
//! stable child key, with a freshness flag per entry. Entries put this frame
//! are fresh; `end_frame` ages fresh entries into a one-frame grace period
//! and drops entries whose grace has run out.

use vstd::prelude::*;

verus! {

/// One cached measurement: the child's intrinsic main and cross sizes and
/// whether the entry was written this frame.
#[derive(Clone, Copy, PartialEq, Eq, Structural, Debug)]
pub struct CacheEntry {
    /// Intrinsic main-axis size.
    pub main: u32,
    /// Intrinsic cross-axis size.
    pub cross: u32,
    /// Whether the entry was written this frame.
    pub fresh: bool,
}

/// The mapping an association list stands for; a later entry for the same
/// key wins.
pub open spec fn map_of(s: Seq<(u64, CacheEntry)>) -> Map<u64, CacheEntry>
    decreases s.len(),
{
    if s.len() == 0 {
        Map::empty()
    } else {
        map_of(s.drop_last()).insert(s.last().0, s.last().1)
    }
}

/// No key occurs twice.
pub open spec fn unique_keys(s: Seq<(u64, CacheEntry)>) -> bool {
    forall|i: int, j: int| 0 <= i < j < s.len() ==> (#[trigger] s[i]).0 != (#[trigger] s[j]).0
}

/// The cache one frame later: fresh entries stay for one more frame, now
/// stale; entries already stale are dropped.
pub open spec fn aged(m: Map<u64, CacheEntry>) -> Map<u64, CacheEntry> {
    Map::new(
        |k: u64| m.contains_key(k) && m[k].fresh,
        |k: u64| CacheEntry { main: m[k].main, cross: m[k].cross, fresh: false },
    )
}

proof fn lemma_absent(s: Seq<(u64, CacheEntry)>, k: u64, i: int)
    requires
        0 <= i <= s.len(),
        forall|j: int| 0 <= j < i ==> (#[trigger] s[j]).0 != k,
    ensures
        !map_of(s.take(i)).contains_key(k),
    decreases i,
{
    if i > 0 {
        lemma_absent(s, k, i - 1);
        assert(s.take(i).drop_last() =~= s.take(i - 1));
        assert(s.take(i).last() == s[i - 1]);
    }
}

proof fn lemma_found(s: Seq<(u64, CacheEntry)>, i: int)
    requires
        unique_keys(s),
        0 <= i < s.len(),
    ensures
        map_of(s).contains_key(s[i].0),
        map_of(s)[s[i].0] == s[i].1,
    decreases s.len(),
{
    if i == s.len() - 1 {
    } else {
        assert(unique_keys(s.drop_last())) by {
            assert(forall|p: int, q: int|
                0 <= p < q < s.len() - 1 ==> (#[trigger] s.drop_last()[p]).0 != (
                #[trigger] s.drop_last()[q]).0);
        }
        lemma_found(s.drop_last(), i);
        assert(s.last().0 != s[i].0);
    }
}

proof fn lemma_update(s: Seq<(u64, CacheEntry)>, i: int, e: CacheEntry)
    requires
        unique_keys(s),
        0 <= i < s.len(),
    ensures
        map_of(s.update(i, (s[i].0, e))) == map_of(s).insert(s[i].0, e),
    decreases s.len(),
{
    let k = s[i].0;
    let s2 = s.update(i, (k, e));
    if i == s.len() - 1 {
        assert(s2.drop_last() =~= s.drop_last());
        assert(s2.last() == (k, e));
        assert(map_of(s.drop_last()).insert(k, e) =~= map_of(s.drop_last()).insert(
            k,
            s.last().1,
        ).insert(k, e));
    } else {
        assert(unique_keys(s.drop_last())) by {
            assert(forall|p: int, q: int|
                0 <= p < q < s.len() - 1 ==> (#[trigger] s.drop_last()[p]).0 != (
                #[trigger] s.drop_last()[q]).0);
        }
        lemma_update(s.drop_last(), i, e);
        assert(s2.drop_last() =~= s.drop_last().update(i, (k, e)));
        assert(s2.last() == s.last());
        assert(s.last().0 != k);
        assert(map_of(s.drop_last()).insert(k, e).insert(s.last().0, s.last().1) =~= map_of(
            s.drop_last(),
        ).insert(s.last().0, s.last().1).insert(k, e));
    }
}

/// The per-container intrinsic-size cache.
pub struct SizeCache {
    entries: Vec<(u64, CacheEntry)>,
}

impl View for SizeCache {
    type V = Map<u64, CacheEntry>;

    closed spec fn view(&self) -> Map<u64, CacheEntry> {
        map_of(self.entries@)
    }
}

impl SizeCache {
    /// The cache's internal list never holds a key twice.
    pub closed spec fn wf(&self) -> bool {
        unique_keys(self.entries@)
    }

    /// An empty cache.
    pub fn new() -> (r: SizeCache)
        ensures
            r.wf(),
            r@ == Map::<u64, CacheEntry>::empty(),
    {
        SizeCache { entries: Vec::new() }
    }

    /// The cached sizes for `key`, fresh or in grace, if any.
    pub fn get(&self, key: u64) -> (r: Option<(u32, u32)>)
        requires
            self.wf(),
        ensures
            self@.contains_key(key) ==> r == Some((self@[key].main, self@[key].cross)),
            !self@.contains_key(key) ==> r is None,
    {
        let n = self.entries.len();
        let mut i: usize = 0;
        while i < n
            invariant
                i <= n,
                n == self.entries@.len(),
                self.wf(),
                forall|j: int| 0 <= j < i ==> (#[trigger] self.entries@[j]).0 != key,
            decreases n - i,
        {
            if self.entries[i].0 == key {
                proof {
                    lemma_found(self.entries@, i as int);
                }
                let e = self.entries[i].1;
                return Some((e.main, e.cross));
            }
            i = i + 1;
        }
        proof {
            lemma_absent(self.entries@, key, n as int);
            assert(self.entries@.take(n as int) =~= self.entries@);
        }
        None
    }

    /// Record a freshly measured size for `key`, marking the entry fresh.
    pub fn put(&mut self, key: u64, main: u32, cross: u32)
        requires
            old(self).wf(),
        ensures
            final(self).wf(),
            final(self)@ == old(self)@.insert(key, CacheEntry { main, cross, fresh: true }),
    {
        let e = CacheEntry { main, cross, fresh: true };
        let n = self.entries.len();
        let mut i: usize = 0;
        while i < n
            invariant
                i <= n,
                n == self.entries@.len(),
                self.wf(),
                self.entries@ == old(self).entries@,
                e == (CacheEntry { main, cross, fresh: true }),
                forall|j: int| 0 <= j < i ==> (#[trigger] self.entries@[j]).0 != key,
            decreases n - i,
        {
            if self.entries[i].0 == key {
                proof {
                    lemma_update(self.entries@, i as int, e);
                }
                let ghost s = self.entries@;
                self.entries.set(i, (key, e));
                proof {
                    assert(self.entries@ =~= s.update(i as int, (s[i as int].0, e)));
                    assert(unique_keys(self.entries@)) by {
                        assert(forall|j: int|
                            0 <= j < s.len() ==> (#[trigger] self.entries@[j]).0 == s[j].0);
                    }
                    assert(map_of(self.entries@) == map_of(s).insert(key, e));
                }
                return ;
            }
            i = i + 1;
        }
        proof {
            let s = self.entries@;
            assert(s.push((key, e)).drop_last() =~= s);
            assert(unique_keys(s.push((key, e))));
        }
        self.entries.push((key, e));
    }

    /// End the frame: fresh entries stay for one more frame, now stale;
    /// entries that were already stale are dropped.
    pub fn end_frame(&mut self)
        requires
            old(self).wf(),
        ensures
            final(self).wf(),
            final(self)@ == aged(old(self)@),
    {
        let n = self.entries.len();
        let mut out: Vec<(u64, CacheEntry)> = Vec::new();
        let mut i: usize = 0;
        while i < n
            invariant
                i <= n,
                n == self.entries@.len(),
                self.wf(),
                unique_keys(out@),
                map_of(out@) == aged(map_of(self.entries@.take(i as int))),
                forall|p: int|
                    0 <= p < out@.len() ==> map_of(self.entries@.take(i as int)).contains_key(
                        (#[trigger] out@[p]).0,
                    ),
            decreases n - i,
        {
            let ghost s = self.entries@;
            let ghost m = map_of(s.take(i as int));
            proof {
                assert(s.take(i as int + 1).drop_last() =~= s.take(i as int));
                assert(s.take(i as int + 1).last() == s[i as int]);
                lemma_absent(s, s[i as int].0, i as int);
            }
            let (key, e) = self.entries[i];
            if e.fresh {
                let ne = CacheEntry { main: e.main, cross: e.cross, fresh: false };
                proof {
                    assert(out@.push((key, ne)).drop_last() =~= out@);
                    assert(forall|p: int|
                        0 <= p < out@.len() ==> (#[trigger] out@[p]).0 != key);
                    assert(unique_keys(out@.push((key, ne))));
                    assert(map_of(out@).insert(key, ne) =~= aged(m.insert(key, e)));
                }
                out.push((key, ne));
            } else {
                proof {
                    assert(map_of(out@) =~= aged(m.insert(key, e)));
                }
            }
            i = i + 1;
        }
        proof {
            assert(self.entries@.take(n as int) =~= self.entries@);
        }
        self.entries = out;
    }
}

} // verus!
