//! What the cache holds on disk, and which files leave when it grows too large.

use crate::cached_object_store::layout;
use crate::random;
use crate::random::DbRand;
use vstd::hash_map::StringHashMap;
use vstd::prelude::*;
use vstd::string::*;

verus! {

/// The sum of a sequence.
pub open spec fn sum(s: Seq<int>) -> int
    decreases s.len(),
{
    if s.len() == 0 {
        0
    } else {
        sum(s.drop_last()) + s.last()
    }
}

/// The sum of those numbers whose position is not marked.
spec fn sum_unmarked(s: Seq<int>, marked: Seq<bool>) -> int
    decreases s.len(),
{
    if s.len() == 0 {
        0
    } else {
        sum_unmarked(s.drop_last(), marked.drop_last()) + if marked.last() {
            0
        } else {
            s.last()
        }
    }
}

proof fn lemma_sum_push(s: Seq<int>, v: int)
    ensures
        sum(s.push(v)) == sum(s) + v,
{
    assert(s.push(v).drop_last() =~= s);
}

proof fn lemma_sum_update(s: Seq<int>, i: int, v: int)
    requires
        0 <= i < s.len(),
    ensures
        sum(s.update(i, v)) == sum(s) - s[i] + v,
    decreases s.len(),
{
    if i == s.len() - 1 {
        assert(s.update(i, v).drop_last() =~= s.drop_last());
    } else {
        lemma_sum_update(s.drop_last(), i, v);
        assert(s.update(i, v).drop_last() =~= s.drop_last().update(i, v));
    }
}

proof fn lemma_sum_bound(s: Seq<int>, i: int)
    requires
        forall|j: int| 0 <= j < s.len() ==> #[trigger] s[j] >= 0,
        0 <= i < s.len(),
    ensures
        0 <= s[i] <= sum(s),
    decreases s.len(),
{
    lemma_sum_nonnegative(s.drop_last());
    if i < s.len() - 1 {
        lemma_sum_bound(s.drop_last(), i);
        assert(s.last() == s[s.len() - 1]);
    }
}

proof fn lemma_sum_nonnegative(s: Seq<int>)
    requires
        forall|j: int| 0 <= j < s.len() ==> #[trigger] s[j] >= 0,
    ensures
        sum(s) >= 0,
    decreases s.len(),
{
    if s.len() > 0 {
        lemma_sum_nonnegative(s.drop_last());
        assert(s.last() == s[s.len() - 1]);
    }
}

proof fn lemma_unmarked_none(s: Seq<int>, marked: Seq<bool>)
    requires
        marked.len() == s.len(),
        forall|j: int| 0 <= j < s.len() ==> !#[trigger] marked[j],
    ensures
        sum_unmarked(s, marked) == sum(s),
    decreases s.len(),
{
    if s.len() > 0 {
        lemma_unmarked_none(s.drop_last(), marked.drop_last());
        assert(marked.last() == marked[s.len() - 1]);
    }
}

proof fn lemma_unmarked_mark(s: Seq<int>, marked: Seq<bool>, i: int)
    requires
        marked.len() == s.len(),
        0 <= i < s.len(),
        !marked[i],
        forall|j: int| 0 <= j < s.len() ==> #[trigger] s[j] >= 0,
    ensures
        sum_unmarked(s, marked.update(i, true)) == sum_unmarked(s, marked) - s[i],
        sum_unmarked(s, marked.update(i, true)) >= 0,
    decreases s.len(),
{
    lemma_unmarked_nonnegative(s, marked.update(i, true));
    if i == s.len() - 1 {
        assert(marked.update(i, true).drop_last() =~= marked.drop_last());
    } else {
        lemma_unmarked_mark(s.drop_last(), marked.drop_last(), i);
        assert(marked.update(i, true).drop_last() =~= marked.drop_last().update(i, true));
    }
}

proof fn lemma_unmarked_nonnegative(s: Seq<int>, marked: Seq<bool>)
    requires
        marked.len() == s.len(),
        forall|j: int| 0 <= j < s.len() ==> #[trigger] s[j] >= 0,
    ensures
        sum_unmarked(s, marked) >= 0,
    decreases s.len(),
{
    if s.len() > 0 {
        lemma_unmarked_nonnegative(s.drop_last(), marked.drop_last());
        assert(s.last() == s[s.len() - 1]);
    }
}

/// A position that has not been picked and is not the excluded one.
pub open spec fn is_available(picked: Seq<bool>, exclude: Option<usize>, i: int) -> bool {
    !picked[i] && !(exclude matches Some(e) && e == i)
}

/// The available positions below `n`, in order.
pub open spec fn available(picked: Seq<bool>, exclude: Option<usize>, n: int) -> Seq<int>
    decreases n,
{
    if n <= 0 {
        Seq::empty()
    } else if is_available(picked, exclude, n - 1) {
        available(picked, exclude, n - 1).push(n - 1)
    } else {
        available(picked, exclude, n - 1)
    }
}

/// All available positions.
pub open spec fn all_available(picked: Seq<bool>, exclude: Option<usize>) -> Seq<int> {
    available(picked, exclude, picked.len() as int)
}

proof fn lemma_available_members(picked: Seq<bool>, exclude: Option<usize>, n: int)
    requires
        0 <= n <= picked.len(),
    ensures
        forall|k: int|
            0 <= k < available(picked, exclude, n).len() ==> {
                let i = #[trigger] available(picked, exclude, n)[k];
                0 <= i < n && is_available(picked, exclude, i)
            },
        available(picked, exclude, n).len() <= n,
    decreases n,
{
    if n > 0 {
        lemma_available_members(picked, exclude, n - 1);
    }
}

proof fn lemma_available_complete(picked: Seq<bool>, exclude: Option<usize>, n: int, i: int)
    requires
        0 <= i < n <= picked.len(),
        is_available(picked, exclude, i),
    ensures
        available(picked, exclude, n).contains(i),
    decreases n,
{
    if i == n - 1 {
        assert(available(picked, exclude, n).last() == i);
    } else {
        lemma_available_complete(picked, exclude, n - 1, i);
        let before = available(picked, exclude, n - 1);
        let k = choose|k: int| 0 <= k < before.len() && before[k] == i;
        assert(available(picked, exclude, n)[k] == i);
    }
}

proof fn lemma_available_none_picked(picked: Seq<bool>, n: int)
    requires
        0 <= n <= picked.len(),
        forall|i: int| 0 <= i < n ==> !#[trigger] picked[i],
    ensures
        available(picked, None, n).len() == n,
    decreases n,
{
    if n > 0 {
        lemma_available_none_picked(picked, n - 1);
    }
}

proof fn lemma_available_pick(picked: Seq<bool>, i: int, n: int)
    requires
        0 <= n <= picked.len(),
        0 <= i < picked.len(),
        !picked[i],
    ensures
        available(picked.update(i, true), None, n).len() == available(picked, None, n).len() - if i
            < n {
            1int
        } else {
            0int
        },
    decreases n,
{
    if n > 0 {
        lemma_available_pick(picked, i, n - 1);
    }
}

proof fn lemma_available_exclude(picked: Seq<bool>, e: usize, n: int)
    requires
        0 <= n <= picked.len(),
    ensures
        available(picked, Some(e), n).len() >= available(picked, None, n).len() - if e < n {
            1int
        } else {
            0int
        },
    decreases n,
{
    if n > 0 {
        lemma_available_exclude(picked, e, n - 1);
    }
}

/// The available position with `rank` available positions before it.
pub fn nth_available(picked: &Vec<bool>, exclude: Option<usize>, rank: usize) -> (r: usize)
    requires
        rank < all_available(picked@, exclude).len(),
    ensures
        r == all_available(picked@, exclude)[rank as int],
{
    let mut seen: usize = 0;
    let mut i: usize = 0;
    while i < picked.len()
        invariant
            i <= picked@.len(),
            seen == available(picked@, exclude, i as int).len(),
            seen <= rank < all_available(picked@, exclude).len(),
        decreases picked@.len() - i,
    {
        let excluded = match exclude {
            Some(e) => e == i,
            None => false,
        };
        if !picked[i] && !excluded {
            if seen == rank {
                proof {
                    let upto = available(picked@, exclude, i as int + 1);
                    assert(upto[rank as int] == i);
                    lemma_available_prefix(picked@, exclude, i as int + 1, picked@.len() as int);
                }
                return i;
            }
            seen = seen + 1;
        }
        i = i + 1;
    }
    i
}

proof fn lemma_available_prefix(picked: Seq<bool>, exclude: Option<usize>, m: int, n: int)
    requires
        0 <= m <= n <= picked.len(),
    ensures
        available(picked, exclude, m).len() <= available(picked, exclude, n).len(),
        forall|k: int|
            0 <= k < available(picked, exclude, m).len() ==> #[trigger] available(
                picked,
                exclude,
                n,
            )[k] == available(picked, exclude, m)[k],
    decreases n,
{
    if m < n {
        lemma_available_prefix(picked, exclude, m, n - 1);
    }
}

fn count_available(picked: &Vec<bool>, exclude: Option<usize>) -> (r: usize)
    ensures
        r == all_available(picked@, exclude).len(),
{
    let mut seen: usize = 0;
    let mut i: usize = 0;
    while i < picked.len()
        invariant
            i <= picked@.len(),
            seen <= i,
            seen == available(picked@, exclude, i as int).len(),
        decreases picked@.len() - i,
    {
        let excluded = match exclude {
            Some(e) => e == i,
            None => false,
        };
        if !picked[i] && !excluded {
            seen = seen + 1;
        }
        i = i + 1;
    }
    seen
}

/// A random position among those that are neither picked nor excluded, or none if
/// there is no such position.
pub fn pick_random_available_index(
    rng: &mut DbRand,
    picked: &Vec<bool>,
    exclude: Option<usize>,
) -> (r: Option<usize>)
    ensures
        r is None <==> (forall|i: int|
            0 <= i < picked@.len() ==> !#[trigger] is_available(picked@, exclude, i)),
        r matches Some(i) ==> {
            &&& i < picked@.len() && is_available(picked@, exclude, i as int)
            &&& i == drawn_index(picked@, exclude, old(rng).seed())
        },
        final(rng).seed() == if r is Some {
            random::next_seed(old(rng).seed())
        } else {
            old(rng).seed()
        },
{
    let count: usize = count_available(picked, exclude);
    proof {
        lemma_available_members(picked@, exclude, picked@.len() as int);
    }
    if count == 0 {
        proof {
            assert forall|i: int| 0 <= i < picked@.len() implies !#[trigger] is_available(
                picked@,
                exclude,
                i,
            ) by {
                if is_available(picked@, exclude, i) {
                    lemma_available_complete(picked@, exclude, picked@.len() as int, i);
                }
            }
        }
        return None;
    }
    let rank: usize = rng.below(count);
    let i: usize = nth_available(picked, exclude, rank);
    assert(is_available(picked@, exclude, all_available(picked@, exclude)[rank as int]));
    Some(i)
}

/// What is known of one cache file.
#[derive(Clone, Copy, Debug, PartialEq, Eq)]
struct CacheEntry {
    access_time: i128,
    size_bytes: usize,
    key_index: usize,
}

/// The cache files with the time of their last access and their size.
pub type CacheContents = Map<Seq<char>, (int, int)>;

/// The files of `contents`, each listed once.
pub open spec fn is_listing(names: Seq<Seq<char>>, contents: CacheContents) -> bool {
    &&& names.no_duplicates()
    &&& forall|k: Seq<char>| #[trigger] names.contains(k) <==> contents.contains_key(k)
}

/// The sizes of the named files.
pub open spec fn sizes_of(names: Seq<Seq<char>>, contents: CacheContents) -> Seq<int> {
    Seq::new(names.len(), |i: int| contents[names[i]].1)
}

/// `contents` after an access: a known file keeps its size and gets a new time, an
/// unknown one comes in.
pub open spec fn touched(
    contents: CacheContents,
    name: Seq<char>,
    bytes: int,
    time: int,
) -> CacheContents {
    contents.insert(
        name,
        (
            time,
            if contents.contains_key(name) {
                contents[name].1
            } else {
                bytes
            },
        ),
    )
}

/// The position that is drawn from this seed on among those that are neither marked nor
/// excluded.
pub open spec fn drawn_index(marked: Seq<bool>, exclude: Option<usize>, seed: u64) -> int {
    let all = all_available(marked, exclude);
    all[random::drawn_below(seed, all.len() as usize) as int]
}

/// The position of the file that leaves when two of the unmarked ones are drawn from this seed
/// on: the one that was accessed earlier.
pub open spec fn drawn_loser(
    contents: CacheContents,
    names: Seq<Seq<char>>,
    marked: Seq<bool>,
    seed: u64,
) -> int {
    let first = drawn_index(marked, None, seed);
    let second = drawn_index(marked, Some(first as usize), random::next_seed(seed));
    if contents[names[first]].0 <= contents[names[second]].0 {
        first
    } else {
        second
    }
}

/// Which files are marked after `n` of them were drawn from this seed on.
pub open spec fn drawn_marks(
    contents: CacheContents,
    names: Seq<Seq<char>>,
    seed: u64,
    n: nat,
) -> Seq<bool>
    decreases n,
{
    if n == 0 {
        Seq::new(names.len(), |i: int| false)
    } else {
        let marked = drawn_marks(contents, names, seed, (n - 1) as nat);
        let at = random::seed_after(seed, 2 * (n - 1) as nat);
        marked.update(drawn_loser(contents, names, marked, at), true)
    }
}

/// The targets are the files that are drawn from this seed on, one after the other.
pub open spec fn are_drawn_targets(
    contents: CacheContents,
    names: Seq<Seq<char>>,
    seed: u64,
    targets: Seq<(String, usize)>,
) -> bool {
    forall|i: int|
        0 <= i < targets.len() ==> (#[trigger] targets[i]).0@ == names[drawn_loser(
            contents,
            names,
            drawn_marks(contents, names, seed, i as nat),
            random::seed_after(seed, 2 * i as nat),
        )]
}

/// The accounting of the cache files: which files there are, when each was last
/// accessed, and how many bytes they take together. Files leave by a pick-of-two
/// rule, which comes close to least recently used.
pub struct FsCacheEvictorInner {
    max_cache_size_bytes: usize,
    entries: StringHashMap<CacheEntry>,
    keys: Vec<String>,
    cache_size_bytes: u64,
}

impl FsCacheEvictorInner {
    /// The limit of the cache.
    pub closed spec fn limit(self) -> int {
        self.max_cache_size_bytes as int
    }

    /// The files with their access times and sizes.
    pub closed spec fn contents(self) -> CacheContents {
        Map::new(
            |k: Seq<char>| self.entries@.contains_key(k),
            |k: Seq<char>|
                (self.entries@[k].access_time as int, self.entries@[k].size_bytes as int),
        )
    }

    /// The files in the order in which they are listed.
    pub closed spec fn names(self) -> Seq<Seq<char>> {
        Seq::new(self.keys@.len(), |i: int| self.keys@[i]@)
    }

    /// The size of all files together.
    pub closed spec fn total(self) -> int {
        self.cache_size_bytes as int
    }

    /// The list and the map hold the same files, each file knows its place in the
    /// list, and the total is the sum of the sizes.
    pub closed spec fn wf(self) -> bool {
        &&& forall|i: int|
            #![trigger self.keys@[i]]
            0 <= i < self.keys@.len() ==> self.entries@.contains_key(self.keys@[i]@)
                && self.entries@[self.keys@[i]@].key_index == i
        &&& forall|k: Seq<char>| #[trigger]
            self.entries@.contains_key(k) ==> self.entries@[k].key_index < self.keys@.len()
                && self.keys@[self.entries@[k].key_index as int]@ == k
        &&& self.cache_size_bytes == sum(self.sizes())
    }

    spec fn sizes(self) -> Seq<int> {
        Seq::new(self.keys@.len(), |i: int| self.entries@[self.keys@[i]@].size_bytes as int)
    }

    /// No files.
    pub fn new(max_cache_size_bytes: usize) -> (r: FsCacheEvictorInner)
        ensures
            r.wf(),
            r.limit() == max_cache_size_bytes,
            r.contents() == CacheContents::empty(),
            r.total() == 0,
    {
        let r = FsCacheEvictorInner {
            max_cache_size_bytes,
            entries: StringHashMap::new(),
            keys: Vec::new(),
            cache_size_bytes: 0,
        };
        assert(r.contents() =~= CacheContents::empty());
        r
    }

    /// The size of all files together.
    pub fn cache_size_bytes(&self) -> (r: u64)
        ensures
            r == self.total(),
    {
        self.cache_size_bytes
    }

    /// How many files there are.
    pub fn entry_count(&self) -> (r: usize)
        ensures
            r == self.names().len(),
    {
        self.keys.len()
    }

    /// The accounting is exact: the files are listed once each and the total is the
    /// sum of their sizes.
    pub proof fn lemma_accounting(self)
        requires
            self.wf(),
        ensures
            is_listing(self.names(), self.contents()),
            self.total() == sum(sizes_of(self.names(), self.contents())),
    {
        let names = self.names();
        assert forall|i: int, j: int| 0 <= i < names.len() && 0 <= j < names.len() && i
            != j implies names[i] != names[j] by {
            assert(self.entries@[self.keys@[i]@].key_index == i);
            assert(self.entries@[self.keys@[j]@].key_index == j);
        }
        assert forall|k: Seq<char>| #[trigger] names.contains(k) implies self.contents().contains_key(
            k,
        ) by {
            let i = choose|i: int| 0 <= i < names.len() && names[i] == k;
            assert(self.entries@.contains_key(self.keys@[i]@));
        }
        assert forall|k: Seq<char>| self.contents().contains_key(k) implies #[trigger] names.contains(
            k,
        ) by {
            assert(self.entries@.contains_key(k));
            assert(names[self.entries@[k].key_index as int] == k);
        }
        assert forall|i: int| 0 <= i < names.len() implies self.sizes()[i] == sizes_of(
            names,
            self.contents(),
        )[i] by {
            assert(self.entries@.contains_key(self.keys@[i]@));
        }
        assert(self.sizes() =~= sizes_of(names, self.contents()));
    }

    /// Takes note of an access to `path` at `accessed_time`. A file that was not known
    /// comes in with `bytes` bytes.
    pub fn touch(&mut self, path: String, bytes: usize, accessed_time: i128)
        requires
            old(self).wf(),
            old(self).contents().contains_key(path@) || old(self).total() + bytes <= u64::MAX,
        ensures
            final(self).wf(),
            has_tracked(*old(self), *final(self), path@, bytes as int, accessed_time as int),
            final(self).names() == if old(self).contents().contains_key(path@) {
                old(self).names()
            } else {
                old(self).names().push(path@)
            },
    {
        let ghost before = *self;
        let ghost name = path@;
        match self.entries.get(path.as_str()) {
            Some(entry) => {
                let size_bytes: usize = entry.size_bytes;
                let key_index: usize = entry.key_index;
                self.entries.insert(
                    path,
                    CacheEntry { access_time: accessed_time, size_bytes, key_index },
                );
                proof {
                    assert(self.sizes() =~= before.sizes());
                    assert(self.contents() =~= touched(
                        before.contents(),
                        name,
                        bytes as int,
                        accessed_time as int,
                    ));
                    assert(self.names() =~= before.names());
                }
            },
            None => {
                let key_index: usize = self.keys.len();
                self.keys.push(path.clone());
                self.entries.insert(
                    path,
                    CacheEntry { access_time: accessed_time, size_bytes: bytes, key_index },
                );
                self.cache_size_bytes = self.cache_size_bytes + bytes as u64;
                proof {
                    assert forall|i: int| 0 <= i < before.keys@.len() implies before.keys@[i]@
                        != name by {
                        assert(before.entries@.contains_key(before.keys@[i]@));
                    }
                    assert(self.sizes() =~= before.sizes().push(bytes as int));
                    lemma_sum_push(before.sizes(), bytes as int);
                    assert(self.contents() =~= touched(
                        before.contents(),
                        name,
                        bytes as int,
                        accessed_time as int,
                    ));
                    assert(self.names() =~= before.names().push(name));
                }
            },
        }
    }

    /// Drops `path` from the accounting and returns its size, if it was there. The
    /// last file of the list takes its place.
    pub fn forget(&mut self, path: &str) -> (r: Option<usize>)
        requires
            old(self).wf(),
        ensures
            final(self).wf(),
            has_forgotten(*old(self), *final(self), path@, r),
            final(self).names().len() == old(self).names().len() - if old(
                self,
            ).contents().contains_key(path@) {
                1int
            } else {
                0int
            },
    {
        let ghost before = *self;
        let ghost name = path@;
        let (size_bytes, key_index): (usize, usize) = match self.entries.get(path) {
            None => {
                assert(before.contents().remove(name) =~= before.contents());
                return None;
            },
            Some(entry) => (entry.size_bytes, entry.key_index),
        };
        assert(self.entries@.contains_key(name));
        let ghost last = self.keys@.len() - 1;
        let ghost last_name = self.keys@[last]@;
        self.entries.remove(path);
        self.keys.swap_remove(key_index);
        if key_index < self.keys.len() {
            let swapped_key = self.keys[key_index].clone();
            assert(before.entries@.contains_key(before.keys@[last]@));
            assert(swapped_key@ == last_name);
            match self.entries.get(swapped_key.as_str()) {
                None => {},
                Some(swapped) => {
                    let moved = CacheEntry {
                        access_time: swapped.access_time,
                        size_bytes: swapped.size_bytes,
                        key_index,
                    };
                    self.entries.insert(swapped_key, moved);
                },
            }
        }
        proof {
            assert forall|j: int| 0 <= j < before.sizes().len() implies #[trigger] before.sizes()[j]
                >= 0 by {}
            lemma_sum_bound(before.sizes(), key_index as int);
            let moved = before.sizes().update(key_index as int, before.sizes()[last]);
            lemma_sum_update(before.sizes(), key_index as int, before.sizes()[last]);
            assert forall|i: int| 0 <= i < self.keys@.len() implies #[trigger] self.keys@[i]@ != name
                by {
                let j = if i == key_index {
                    last
                } else {
                    i
                };
                assert(self.keys@[i] == before.keys@[j]);
                assert(before.entries@[before.keys@[j]@].key_index == j);
            }
            assert forall|i: int|
                #![trigger self.keys@[i]]
                0 <= i < self.keys@.len() implies self.entries@.contains_key(self.keys@[i]@)
                && self.entries@[self.keys@[i]@].key_index == i && self.entries@[self.keys@[i]@].size_bytes
                == moved[i] by {
                let j = if i == key_index {
                    last
                } else {
                    i
                };
                assert(self.keys@[i] == before.keys@[j]);
                assert(before.entries@.contains_key(before.keys@[j]@));
                assert(before.entries@[before.keys@[j]@].key_index == j);
                assert(before.entries@.contains_key(before.keys@[last]@));
                assert(before.entries@[before.keys@[last]@].key_index == last);
            }
            assert(self.sizes() =~= moved.drop_last());
            assert forall|k: Seq<char>| #[trigger] self.entries@.contains_key(k) implies self.entries@[k].key_index
                < self.keys@.len() && self.keys@[self.entries@[k].key_index as int]@ == k by {
                assert(before.entries@.contains_key(k));
                assert(before.keys@[before.entries@[k].key_index as int]@ == k);
                assert(before.entries@[before.keys@[last]@].key_index == last);
            }
            assert(self.contents() =~= before.contents().remove(name));
        }
        self.cache_size_bytes = self.cache_size_bytes - size_bytes as u64;
        Some(size_bytes)
    }

    /// Which of the files at two positions of the list was accessed earlier, with its size.
    /// The first one counts as earlier if there is no difference.
    pub fn older_of(&self, idx0: usize, idx1: usize) -> (r: (usize, usize))
        requires
            self.wf(),
            idx0 < self.names().len(),
            idx1 < self.names().len(),
        ensures
            is_older_of(self.contents(), self.names(), idx0, idx1, r),
    {
        assert(self.entries@.contains_key(self.keys@[idx0 as int]@));
        assert(self.entries@.contains_key(self.keys@[idx1 as int]@));
        match (
            self.entries.get(self.keys[idx0].as_str()),
            self.entries.get(self.keys[idx1].as_str()),
        ) {
            (Some(entry0), Some(entry1)) => if entry0.access_time <= entry1.access_time {
                (idx0, entry0.size_bytes)
            } else {
                (idx1, entry1.size_bytes)
            },
            _ => (idx0, 0),
        }
    }

    /// The files to evict so that the cache shrinks to `target_size`: as long as it is
    /// larger and two files are left, two of them are drawn at random and the one
    /// with the older access leaves.
    pub fn pick_evict_targets(&self, rng: &mut DbRand, target_size: u64) -> (r: Vec<
        (String, usize),
    >)
        requires
            self.wf(),
        ensures
            is_pick(self.contents(), self.total(), self.names().len(), target_size as int, r@),
            are_drawn_targets(self.contents(), self.names(), old(rng).seed(), r@),
            final(rng).seed() == random::seed_after(old(rng).seed(), 2 * r@.len() as nat),
    {
        let ghost seed = rng.seed();
        let mut targets: Vec<(String, usize)> = Vec::new();
        let count: usize = self.keys.len();
        let mut simulated_size: u64 = self.cache_size_bytes;
        let mut picked: Vec<bool> = Vec::new();
        while picked.len() < count
            invariant
                picked@.len() <= count,
                forall|i: int| 0 <= i < picked@.len() ==> !#[trigger] picked@[i],
            decreases count - picked@.len(),
        {
            picked.push(false);
        }
        proof {
            assert(picked@.len() == count);
            lemma_unmarked_none(self.sizes(), picked@);
            lemma_available_none_picked(picked@, count as int);
            assert(picked_sizes(targets@) =~= Seq::<int>::empty());
            assert(picked@ =~= drawn_marks(self.contents(), self.names(), seed, 0));
        }
        while simulated_size > target_size && count - targets.len() >= 2
            invariant
                self.wf(),
                count == self.keys@.len(),
                picked@.len() == count,
                targets@.len() <= count,
                simulated_size == sum_unmarked(self.sizes(), picked@),
                simulated_size == self.total() - sum(picked_sizes(targets@)),
                all_available(picked@, None).len() == count - targets@.len(),
                targets@.len() > 0 ==> targets@.len() < count,
                forall|i: int|
                    #![trigger targets@[i]]
                    0 <= i < targets@.len() ==> self.entries@.contains_key(targets@[i].0@)
                        && targets@[i].1 == self.entries@[targets@[i].0@].size_bytes
                        && picked@[self.entries@[targets@[i].0@].key_index as int],
                forall|i: int, j: int|
                    0 <= i < j < targets@.len() ==> (#[trigger] targets@[i]).0@ != (
                    #[trigger] targets@[j]).0@,
                forall|k: int|
                    0 <= k < targets@.len() ==> self.total() - #[trigger] sum(
                        picked_sizes(targets@.take(k)),
                    ) > target_size,
                forall|i: int|
                    0 <= i < targets@.len() ==> #[trigger] gave_way(self.contents(), targets@, i),
                are_drawn_targets(self.contents(), self.names(), seed, targets@),
                picked@ == drawn_marks(
                    self.contents(),
                    self.names(),
                    seed,
                    targets@.len() as nat,
                ),
                rng.seed() == random::seed_after(seed, 2 * targets@.len() as nat),
            decreases count - targets@.len(),
        {
            let ghost before = targets@;
            let ghost marked = picked@;
            let ghost at = rng.seed();
            let idx0: usize = match pick_random_available_index(rng, &picked, None) {
                Some(idx) => idx,
                None => {
                    proof {
                        lemma_available_members(marked, None, count as int);
                        assert(is_available(marked, None, all_available(marked, None)[0]));
                    }
                    return targets;
                },
            };
            let idx1: usize = match pick_random_available_index(
                rng,
                &picked,
                Some(idx0),
            ) {
                Some(idx) => idx,
                None => {
                    proof {
                        lemma_available_exclude(marked, idx0, count as int);
                        lemma_available_members(marked, Some(idx0), count as int);
                        assert(is_available(
                            marked,
                            Some(idx0),
                            all_available(marked, Some(idx0))[0],
                        ));
                    }
                    return targets;
                },
            };
            assert(self.entries@.contains_key(self.keys@[idx0 as int]@));
            assert(self.entries@.contains_key(self.keys@[idx1 as int]@));
            let (chosen, bytes): (usize, usize) = self.older_of(idx0, idx1);
            let ghost other = if chosen == idx0 {
                idx1
            } else {
                idx0
            };
            let path = self.keys[chosen].clone();
            let ghost name = path@;
            proof {
                assert(self.sizes()[chosen as int] == bytes);
                lemma_unmarked_mark(self.sizes(), marked, chosen as int);
                lemma_available_pick(marked, chosen as int, count as int);
                assert(chosen == drawn_loser(self.contents(), self.names(), marked, at));
                random::lemma_seed_after(seed, 2 * before.len(), 2);
                reveal_with_fuel(random::seed_after, 3);
            }
            picked.set(chosen, true);
            simulated_size = simulated_size.saturating_sub(bytes as u64);
            targets.push((path, bytes));
            proof {
                assert(picked_sizes(targets@) =~= picked_sizes(before).push(bytes as int));
                lemma_sum_push(picked_sizes(before), bytes as int);
                assert forall|k: int| 0 <= k < targets@.len() implies self.total()
                    - #[trigger] sum(picked_sizes(targets@.take(k))) > target_size by {
                    if k < before.len() {
                        assert(targets@.take(k) =~= before.take(k));
                    } else {
                        assert(targets@.take(k) =~= before);
                    }
                }
                assert forall|i: int| 0 <= i < targets@.len() implies #[trigger] gave_way(
                    self.contents(),
                    targets@,
                    i,
                ) by {
                    if i < before.len() {
                        assert(gave_way(self.contents(), before, i));
                        let rest = choose|rest: Seq<char>| #[trigger]
                            outlives(self.contents(), before, i, rest);
                        assert(outlives(self.contents(), targets@, i, rest));
                    } else {
                        let rest = self.keys@[other as int]@;
                        assert(self.entries@[rest].key_index == other);
                        assert forall|j: int| 0 <= j <= i implies (#[trigger] targets@[j]).0@
                            != rest by {
                            if j < before.len() {
                                assert(targets@[j] == before[j]);
                            }
                        }
                        assert(outlives(self.contents(), targets@, i, rest));
                    }
                }
                assert(self.entries@[name].key_index == chosen);
            }
        }
        targets
    }

    /// Takes note of an access and says which files are then to be deleted: none while
    /// the cache is within its limit or no eviction is wanted, else enough of them to
    /// shrink it to `target_size`.
    pub fn track_entry_accessed(
        &mut self,
        path: String,
        bytes: usize,
        accessed_time: i128,
        evict: bool,
        target_size: u64,
        rng: &mut DbRand,
    ) -> (r: Vec<(String, usize)>)
        requires
            old(self).wf(),
            old(self).contents().contains_key(path@) || old(self).total() + bytes <= u64::MAX,
        ensures
            final(self).wf(),
            has_tracked(*old(self), *final(self), path@, bytes as int, accessed_time as int),
            is_eviction(*final(self), evict, target_size as int, r@),
            are_drawn_targets(final(self).contents(), final(self).names(), old(rng).seed(), r@),
            final(rng).seed() == random::seed_after(old(rng).seed(), 2 * r@.len() as nat),
    {
        self.touch(path, bytes, accessed_time);
        if self.cache_size_bytes <= self.max_cache_size_bytes as u64 {
            return Vec::new();
        }
        if evict {
            self.pick_evict_targets(rng, target_size)
        } else {
            Vec::new()
        }
    }

    /// Ends an eviction: takes the files that are gone out of the accounting. Returns how many
    /// files that were and how many bytes they had. A file that could not be deleted stays in
    /// the accounting.
    pub fn complete_eviction(
        &mut self,
        targets: &Vec<(String, usize)>,
        outcomes: &Vec<DeleteOutcome>,
    ) -> (r: (u64, u64))
        requires
            old(self).wf(),
            targets@.len() == outcomes@.len(),
        ensures
            final(self).wf(),
            has_evicted(*old(self), *final(self), targets@, outcomes@, r),
            are_targets(old(self).contents(), targets@) ==> {
                &&& final(self).total() == old(self).total() - sum(
                    picked_sizes(gone_targets(targets@, outcomes@)),
                )
                &&& final(self).names().len() == old(self).names().len() - r.0
            },
    {
        let ghost before = *self;
        let mut count: u64 = 0;
        let mut total_bytes: u64 = 0;
        let mut i: usize = 0;
        proof {
            assert(gone_targets(targets@.take(0), outcomes@.take(0)) =~= Seq::empty());
            assert(before.contents().remove_keys(
                target_names(gone_targets(targets@.take(0), outcomes@.take(0))),
            ) =~= before.contents());
            assert(picked_sizes(gone_targets(targets@.take(0), outcomes@.take(0)))
                =~= Seq::<int>::empty());
        }
        while i < targets.len()
            invariant
                i <= targets@.len(),
                targets@.len() == outcomes@.len(),
                self.wf(),
                self.limit() == before.limit(),
                self.contents() == before.contents().remove_keys(
                    target_names(gone_targets(targets@.take(i as int), outcomes@.take(i as int))),
                ),
                count == gone_targets(targets@.take(i as int), outcomes@.take(i as int)).len(),
                count <= i,
                total_bytes == before.total() - self.total(),
                are_targets(before.contents(), targets@) ==> {
                    &&& self.total() == before.total() - sum(
                        picked_sizes(
                            gone_targets(targets@.take(i as int), outcomes@.take(i as int)),
                        ),
                    )
                    &&& self.names().len() == before.names().len() - count
                },
            decreases targets@.len() - i,
        {
            let ghost gone = gone_targets(targets@.take(i as int), outcomes@.take(i as int));
            let ghost now = *self;
            let ghost target = targets@[i as int];
            proof {
                assert(targets@.take(i + 1).drop_last() =~= targets@.take(i as int));
                assert(outcomes@.take(i + 1).drop_last() =~= outcomes@.take(i as int));
                assert(targets@.take(i + 1).last() == target);
                assert(outcomes@.take(i + 1).last() == outcomes@[i as int]);
            }
            let is_gone = match outcomes[i] {
                DeleteOutcome::Failed => false,
                _ => true,
            };
            if is_gone {
                let removed = self.forget(targets[i].0.as_str());
                if let Some(size_bytes) = removed {
                    total_bytes = total_bytes + size_bytes as u64;
                }
                count = count + 1;
                proof {
                    let next = gone.push(target);
                    lemma_target_names_push(gone, target);
                    assert(self.contents() =~= before.contents().remove_keys(target_names(next)));
                    assert(picked_sizes(next) =~= picked_sizes(gone).push(target.1 as int));
                    lemma_sum_push(picked_sizes(gone), target.1 as int);
                    if are_targets(before.contents(), targets@) {
                        assert(before.contents().contains_key(target.0@));
                        assert(!target_names(gone).contains(target.0@)) by {
                            if target_names(gone).contains(target.0@) {
                                let j = choose|j: int|
                                    0 <= j < gone.len() && (#[trigger] gone[j]).0@ == target.0@;
                                lemma_gone_are_targets(
                                    targets@.take(i as int),
                                    outcomes@.take(i as int),
                                    j,
                                );
                                let k = choose|k: int|
                                    0 <= k < i && #[trigger] targets@.take(i as int)[k] == gone[j];
                                assert(targets@[k].0@ != targets@[i as int].0@);
                            }
                        }
                        assert(now.contents().contains_key(target.0@));
                    }
                }
            }
            i = i + 1;
        }
        proof {
            assert(targets@.take(i as int) =~= targets@);
            assert(outcomes@.take(i as int) =~= outcomes@);
        }
        (count, total_bytes)
    }

    /// Takes files that someone else has deleted out of the accounting. Returns how
    /// many of them were known and how many bytes they had. The sizes that come with
    /// the files are hints and do not count.
    pub fn forget_entries(&mut self, entries: &Vec<(String, u64)>) -> (r: (u64, u64))
        requires
            old(self).wf(),
        ensures
            final(self).wf(),
            has_forgotten_all(*old(self), *final(self), entries@, r),
    {
        let ghost before = *self;
        let mut count: u64 = 0;
        let mut total: u64 = 0;
        let mut i: usize = 0;
        proof {
            assert(entries@.take(0) =~= Seq::<(String, u64)>::empty());
            assert(before.contents().remove_keys(entry_names(entries@.take(0)))
                =~= before.contents());
        }
        while i < entries.len()
            invariant
                i <= entries@.len(),
                self.wf(),
                self.limit() == before.limit(),
                self.contents() == before.contents().remove_keys(
                    entry_names(entries@.take(i as int)),
                ),
                count == before.names().len() - self.names().len(),
                count <= i,
                total == before.total() - self.total(),
            decreases entries@.len() - i,
        {
            let ghost gone = entries@.take(i as int);
            let removed = self.forget(entries[i].0.as_str());
            if let Some(size_bytes) = removed {
                count = count + 1;
                total = total + size_bytes as u64;
            }
            proof {
                let next = entries@.take(i + 1);
                let name = entries@[i as int].0@;
                assert(next =~= gone.push(entries@[i as int]));
                assert forall|n: Seq<char>| entry_names(next).contains(n) <==> entry_names(
                    gone,
                ).contains(n) || n == name by {
                    if entry_names(gone).contains(n) {
                        let j = choose|j: int| 0 <= j < gone.len() && (#[trigger] gone[j]).0@ == n;
                        assert(next[j].0@ == n);
                    }
                    if n == name {
                        assert(next[i as int].0@ == n);
                    }
                    if entry_names(next).contains(n) && n != name {
                        let j = choose|j: int| 0 <= j < next.len() && (#[trigger] next[j]).0@ == n;
                        assert(gone[j].0@ == n);
                    }
                }
                assert(self.contents() =~= before.contents().remove_keys(entry_names(next)));
            }
            i = i + 1;
        }
        assert(entries@.take(i as int) =~= entries@);
        (count, total)
    }
}

/// `after` is `before` when it has taken note of an access.
pub open spec fn has_tracked(
    before: FsCacheEvictorInner,
    after: FsCacheEvictorInner,
    name: Seq<char>,
    bytes: int,
    time: int,
) -> bool {
    &&& after.limit() == before.limit()
    &&& after.contents() == touched(before.contents(), name, bytes, time)
    &&& after.total() == before.total() + if before.contents().contains_key(name) {
        0
    } else {
        bytes
    }
}

/// `after` is `before` without the file `name`; `r` is its size, if it was there.
pub open spec fn has_forgotten(
    before: FsCacheEvictorInner,
    after: FsCacheEvictorInner,
    name: Seq<char>,
    r: Option<usize>,
) -> bool {
    let known = before.contents().contains_key(name);
    &&& after.limit() == before.limit()
    &&& r is Some <==> known
    &&& r matches Some(size) ==> size == before.contents()[name].1
    &&& after.contents() == before.contents().remove(name)
    &&& after.total() == before.total() - if known {
        before.contents()[name].1
    } else {
        0
    }
}

/// `after` is `before` when an eviction has ended: the files that are gone have left the
/// accounting. `r` is their number, and how many bytes that were.
pub open spec fn has_evicted(
    before: FsCacheEvictorInner,
    after: FsCacheEvictorInner,
    targets: Seq<(String, usize)>,
    outcomes: Seq<DeleteOutcome>,
    r: (u64, u64),
) -> bool {
    let gone = gone_targets(targets, outcomes);
    &&& after.limit() == before.limit()
    &&& after.contents() == before.contents().remove_keys(target_names(gone))
    &&& r.0 == gone.len()
    &&& r.1 == before.total() - after.total()
}

/// `after` is `before` without the files that someone else has deleted. `r` is how many of
/// them were known, and how many bytes those had.
pub open spec fn has_forgotten_all(
    before: FsCacheEvictorInner,
    after: FsCacheEvictorInner,
    entries: Seq<(String, u64)>,
    r: (u64, u64),
) -> bool {
    &&& after.limit() == before.limit()
    &&& after.contents() == before.contents().remove_keys(entry_names(entries))
    &&& r.0 == before.names().len() - after.names().len()
    &&& r.1 == before.total() - after.total()
}

/// The files to delete after an access: enough of them to shrink the cache to `target_size`
/// if it is over its limit and eviction is wanted, else none.
pub open spec fn is_eviction(
    cache: FsCacheEvictorInner,
    evict: bool,
    target_size: int,
    targets: Seq<(String, usize)>,
) -> bool {
    if evict && cache.total() > cache.limit() {
        is_pick(cache.contents(), cache.total(), cache.names().len(), target_size, targets)
    } else {
        targets.len() == 0
    }
}

/// After an access to a file the time on record for it is the time of the access, whether the
/// file was known or not. It keeps the size that it came in with. No other file is affected.
pub proof fn lemma_access_is_on_record(
    before: FsCacheEvictorInner,
    after: FsCacheEvictorInner,
    name: Seq<char>,
    bytes: int,
    time: int,
    other: Seq<char>,
)
    requires
        has_tracked(before, after, name, bytes, time),
        other != name,
    ensures
        after.contents().contains_key(name),
        after.contents()[name].0 == time,
        before.contents().contains_key(name) ==> after.contents()[name].1
            == before.contents()[name].1 && after.total() == before.total(),
        !before.contents().contains_key(name) ==> after.contents()[name].1 == bytes
            && after.total() == before.total() + bytes,
        after.contents().contains_key(other) <==> before.contents().contains_key(other),
        before.contents().contains_key(other) ==> after.contents()[other]
            == before.contents()[other],
        after.limit() == before.limit(),
{
}

/// Of two accesses to one file the second one counts.
pub proof fn lemma_last_access_counts(
    first: FsCacheEvictorInner,
    second: FsCacheEvictorInner,
    third: FsCacheEvictorInner,
    name: Seq<char>,
    bytes: int,
    more: int,
    earlier: int,
    later: int,
)
    requires
        has_tracked(first, second, name, bytes, earlier),
        has_tracked(second, third, name, more, later),
    ensures
        third.contents()[name].0 == later,
        third.contents()[name].1 == second.contents()[name].1,
        third.total() == second.total(),
{
}

/// A file that is accessed after every other file was last accessed is not picked by the
/// eviction that follows, be it known before or new.
pub proof fn lemma_accessed_file_stays(
    before: FsCacheEvictorInner,
    after: FsCacheEvictorInner,
    name: Seq<char>,
    bytes: int,
    time: int,
    evict: bool,
    target_size: int,
    targets: Seq<(String, usize)>,
    i: int,
)
    requires
        has_tracked(before, after, name, bytes, time),
        forall|k: Seq<char>| #[trigger]
            before.contents().contains_key(k) && k != name ==> before.contents()[k].0 < time,
        is_eviction(after, evict, target_size, targets),
        0 <= i < targets.len(),
    ensures
        targets[i].0@ != name,
{
    assert forall|k: Seq<char>| #[trigger] after.contents().contains_key(k) && k
        != name implies after.contents()[k].0 < after.contents()[name].0 by {
        assert(before.contents().contains_key(k));
    }
    lemma_newest_is_never_picked(
        after.contents(),
        after.total(),
        after.names().len(),
        target_size,
        targets,
        name,
        i,
    );
}

/// Nothing is evicted needlessly: not without being asked, not within the limit, not below the
/// target, and not the only file. What is over its limit and target, and has two files, loses
/// one at least; the last file that leaves was still one too many, and afterwards the cache is
/// small enough or has a single file left.
pub proof fn lemma_eviction_is_needed(
    cache: FsCacheEvictorInner,
    evict: bool,
    target_size: int,
    targets: Seq<(String, usize)>,
)
    requires
        is_eviction(cache, evict, target_size, targets),
    ensures
        !evict || cache.total() <= cache.limit() || cache.total() <= target_size
            || cache.names().len() < 2 ==> targets.len() == 0,
        evict && cache.total() > cache.limit() && cache.total() > target_size
            && cache.names().len() >= 2 ==> targets.len() > 0,
        targets.len() > 0 ==> cache.total() - sum(picked_sizes(targets.drop_last())) > target_size
            && targets.len() < cache.names().len(),
        evict && cache.total() > cache.limit() ==> cache.total() - sum(picked_sizes(targets))
            <= target_size || cache.names().len() - targets.len() <= 1,
{
    assert(picked_sizes(targets.take(0)) =~= Seq::<int>::empty());
    assert(targets.take(0) =~= Seq::<(String, usize)>::empty());
    if targets.len() > 0 {
        assert(targets.take(targets.len() - 1) =~= targets.drop_last());
        if is_pick(cache.contents(), cache.total(), cache.names().len(), target_size, targets) {
            assert(cache.total() - sum(picked_sizes(targets.take(0))) > target_size);
            assert(cache.total() - sum(picked_sizes(targets.take(targets.len() - 1)))
                > target_size);
        }
    } else {
        assert(picked_sizes(targets) =~= Seq::<int>::empty());
    }
}

/// `r` is the one of two positions whose file was accessed earlier, with the size of that file.
pub open spec fn is_older_of(
    contents: CacheContents,
    names: Seq<Seq<char>>,
    idx0: usize,
    idx1: usize,
    r: (usize, usize),
) -> bool {
    &&& r.0 == if contents[names[idx0 as int]].0 <= contents[names[idx1 as int]].0 {
        idx0
    } else {
        idx1
    }
    &&& r.1 == contents[names[r.0 as int]].1
}

/// The older of two files is one of them, and neither is older; at a tie it is the first.
pub proof fn lemma_older_of(
    contents: CacheContents,
    names: Seq<Seq<char>>,
    idx0: usize,
    idx1: usize,
    r: (usize, usize),
)
    requires
        is_older_of(contents, names, idx0, idx1, r),
    ensures
        r.0 == idx0 || r.0 == idx1,
        contents[names[r.0 as int]].0 <= contents[names[idx0 as int]].0,
        contents[names[r.0 as int]].0 <= contents[names[idx1 as int]].0,
        contents[names[idx0 as int]].0 == contents[names[idx1 as int]].0 ==> r.0 == idx0,
        r.1 == contents[names[r.0 as int]].1,
{
}

/// What is picked are files of the cache, each with its size, and none of them twice.
pub proof fn lemma_targets_are_files(
    cache: FsCacheEvictorInner,
    evict: bool,
    target_size: int,
    targets: Seq<(String, usize)>,
    i: int,
    j: int,
)
    requires
        is_eviction(cache, evict, target_size, targets),
        0 <= i < targets.len(),
        0 <= j < targets.len(),
    ensures
        cache.contents().contains_key(targets[i].0@),
        targets[i].1 == cache.contents()[targets[i].0@].1,
        i != j ==> targets[i].0@ != targets[j].0@,
{
    if i < j {
        assert(targets[i].0@ != targets[j].0@);
    } else if j < i {
        assert(targets[j].0@ != targets[i].0@);
    }
}

/// The sum of two sequences behind each other is the sum of both sums; that of a single number
/// is the number.
pub proof fn lemma_sum_of_both(a: Seq<int>, b: Seq<int>, x: int)
    ensures
        sum(a + b) == sum(a) + sum(b),
        sum(seq![x]) == x,
        sum(Seq::<int>::empty()) == 0,
    decreases b.len(),
{
    reveal_with_fuel(sum, 2);
    assert(seq![x].drop_last() =~= Seq::<int>::empty());
    if b.len() == 0 {
        assert(a + b =~= a);
    } else {
        lemma_sum_of_both(a, b.drop_last(), x);
        assert((a + b).drop_last() =~= a + b.drop_last());
        assert((a + b).last() == b.last());
    }
}

/// The available positions are those that are neither picked nor excluded, each once, in
/// increasing order.
pub proof fn lemma_available_are_all(picked: Seq<bool>, exclude: Option<usize>, i: int, k: int)
    requires
        0 <= i < picked.len(),
    ensures
        all_available(picked, exclude).contains(i) <==> !picked[i] && !(exclude matches Some(
            e,
        ) && e == i),
        0 <= k < all_available(picked, exclude).len() ==> 0 <= all_available(picked, exclude)[k]
            < picked.len(),
        0 < k < all_available(picked, exclude).len() ==> all_available(picked, exclude)[k - 1]
            < all_available(picked, exclude)[k],
{
    let n = picked.len() as int;
    lemma_available_members(picked, exclude, n);
    if is_available(picked, exclude, i) {
        lemma_available_complete(picked, exclude, n, i);
    }
    lemma_available_in_order(picked, exclude, n, k);
}

proof fn lemma_available_in_order(picked: Seq<bool>, exclude: Option<usize>, n: int, k: int)
    requires
        0 <= n <= picked.len(),
    ensures
        0 < k < available(picked, exclude, n).len() ==> available(picked, exclude, n)[k - 1]
            < available(picked, exclude, n)[k],
    decreases n,
{
    if n > 0 {
        lemma_available_in_order(picked, exclude, n - 1, k);
        lemma_available_members(picked, exclude, n - 1);
    }
}

/// Of two different unmarked files that are drawn, the one that was accessed earlier leaves:
/// neither of the two is older, and at a tie the one that was drawn first leaves.
pub proof fn lemma_older_of_two_leaves(
    contents: CacheContents,
    names: Seq<Seq<char>>,
    marked: Seq<bool>,
    seed: u64,
)
    requires
        marked.len() == names.len(),
        marked.len() <= usize::MAX,
    ensures
        ({
            let all = all_available(marked, None);
            let first = drawn_index(marked, None, seed);
            let rest = all_available(marked, Some(first as usize));
            let second = drawn_index(marked, Some(first as usize), random::next_seed(seed));
            let loser = drawn_loser(contents, names, marked, seed);
            random::drawn_below(seed, all.len() as usize) < all.len() && random::drawn_below(
                random::next_seed(seed),
                rest.len() as usize,
            ) < rest.len() ==> {
                &&& 0 <= loser < marked.len() && !marked[loser]
                &&& 0 <= first < marked.len() && !marked[first]
                &&& 0 <= second < marked.len() && !marked[second] && second != first
                &&& loser == first || loser == second
                &&& contents[names[loser]].0 <= contents[names[first]].0
                &&& contents[names[loser]].0 <= contents[names[second]].0
                &&& contents[names[first]].0 == contents[names[second]].0 ==> loser == first
            }
        }),
{
    let first = drawn_index(marked, None, seed);
    lemma_available_members(marked, None, marked.len() as int);
    lemma_available_members(marked, Some(first as usize), marked.len() as int);
}

/// A file leaves the accounting when an eviction ends exactly if it was a target that is gone,
/// deleted or missing. What could not be deleted stays, as does everything else, unchanged.
pub proof fn lemma_evicted_files_leave(
    before: FsCacheEvictorInner,
    after: FsCacheEvictorInner,
    targets: Seq<(String, usize)>,
    outcomes: Seq<DeleteOutcome>,
    r: (u64, u64),
    name: Seq<char>,
)
    requires
        targets.len() == outcomes.len(),
        has_evicted(before, after, targets, outcomes, r),
    ensures
        after.contents().contains_key(name) <==> before.contents().contains_key(name)
            && forall|k: int|
            #![trigger targets[k]]
            0 <= k < targets.len() && targets[k].0@ == name ==> outcomes[k] is Failed,
        after.contents().contains_key(name) ==> after.contents()[name] == before.contents()[name],
        r.0 <= targets.len(),
        r.0 == targets.len() <==> forall|k: int|
            0 <= k < outcomes.len() ==> !(#[trigger] outcomes[k] is Failed),
        r.0 == 0 <==> forall|k: int|
            0 <= k < outcomes.len() ==> (#[trigger] outcomes[k] is Failed),
        r.1 == before.total() - after.total(),
        after.limit() == before.limit(),
{
    lemma_gone_names(targets, outcomes, name);
    lemma_gone_count(targets, outcomes);
}

proof fn lemma_gone_names(
    targets: Seq<(String, usize)>,
    outcomes: Seq<DeleteOutcome>,
    name: Seq<char>,
)
    requires
        targets.len() == outcomes.len(),
    ensures
        !target_names(gone_targets(targets, outcomes)).contains(name) <==> forall|k: int|
            #![trigger targets[k]]
            0 <= k < targets.len() && targets[k].0@ == name ==> outcomes[k] is Failed,
    decreases targets.len(),
{
    if targets.len() > 0 {
        let t = targets.drop_last();
        let o = outcomes.drop_last();
        let n = targets.len() - 1;
        lemma_gone_names(t, o, name);
        lemma_target_names_push(gone_targets(t, o), targets.last());
        assert(targets[n] == targets.last());
        if target_names(gone_targets(t, o)).contains(name) {
            let k = choose|k: int|
                #![trigger t[k]]
                0 <= k < t.len() && t[k].0@ == name && !(o[k] is Failed);
            assert(targets[k] == t[k] && outcomes[k] == o[k]);
        } else {
            assert forall|k: int|
                #![trigger targets[k]]
                0 <= k < n && targets[k].0@ == name implies outcomes[k] is Failed by {
                assert(t[k] == targets[k] && o[k] == outcomes[k]);
            }
        }
    }
}

proof fn lemma_gone_count(targets: Seq<(String, usize)>, outcomes: Seq<DeleteOutcome>)
    requires
        targets.len() == outcomes.len(),
    ensures
        gone_targets(targets, outcomes).len() <= targets.len(),
        gone_targets(targets, outcomes).len() == targets.len() <==> forall|k: int|
            0 <= k < outcomes.len() ==> !(#[trigger] outcomes[k] is Failed),
        gone_targets(targets, outcomes).len() == 0 <==> forall|k: int|
            0 <= k < outcomes.len() ==> (#[trigger] outcomes[k] is Failed),
    decreases targets.len(),
{
    if targets.len() > 0 {
        let o = outcomes.drop_last();
        let n = outcomes.len() - 1;
        lemma_gone_count(targets.drop_last(), o);
        assert(outcomes[n] == outcomes.last());
        assert forall|k: int| 0 <= k < n implies #[trigger] outcomes[k] == o[k] by {}
        assert forall|k: int| 0 <= k < n implies #[trigger] o[k] == outcomes[k] by {}
    }
}

/// To forget a file that has just come in undoes its coming in, and brings its size back.
pub proof fn lemma_forgetting_undoes_tracking(
    before: FsCacheEvictorInner,
    between: FsCacheEvictorInner,
    after: FsCacheEvictorInner,
    name: Seq<char>,
    bytes: int,
    time: int,
    r: Option<usize>,
)
    requires
        !before.contents().contains_key(name),
        has_tracked(before, between, name, bytes, time),
        has_forgotten(between, after, name, r),
    ensures
        after.contents() == before.contents(),
        after.total() == before.total(),
        after.limit() == before.limit(),
        r matches Some(size) && size == bytes,
{
    assert(after.contents() =~= before.contents());
}

/// A file that is forgotten is not there afterwards, and everything else is as before; a second
/// time there is nothing to forget.
pub proof fn lemma_forgotten_file_is_gone(
    before: FsCacheEvictorInner,
    after: FsCacheEvictorInner,
    again: FsCacheEvictorInner,
    name: Seq<char>,
    r: Option<usize>,
    s: Option<usize>,
    other: Seq<char>,
)
    requires
        has_forgotten(before, after, name, r),
        has_forgotten(after, again, name, s),
        other != name,
    ensures
        !after.contents().contains_key(name),
        after.contents().contains_key(other) <==> before.contents().contains_key(other),
        before.contents().contains_key(other) ==> after.contents()[other]
            == before.contents()[other],
        r matches Some(size) ==> before.contents().contains_key(name) && size
            == before.contents()[name].1 && after.total() + size == before.total(),
        r is None ==> !before.contents().contains_key(name) && after.total() == before.total(),
        s is None && again.total() == after.total() && again.contents() == after.contents(),
{
    assert(again.contents() =~= after.contents());
}

/// When someone else has deleted files, exactly those leave the accounting, whatever size they
/// are said to have had.
pub proof fn lemma_deleted_files_leave(
    before: FsCacheEvictorInner,
    after: FsCacheEvictorInner,
    entries: Seq<(String, u64)>,
    r: (u64, u64),
    name: Seq<char>,
)
    requires
        has_forgotten_all(before, after, entries, r),
    ensures
        after.contents().contains_key(name) <==> before.contents().contains_key(name)
            && forall|k: int| 0 <= k < entries.len() ==> (#[trigger] entries[k]).0@ != name,
        after.contents().contains_key(name) ==> after.contents()[name] == before.contents()[name],
        r.0 + after.names().len() == before.names().len(),
        r.1 + after.total() == before.total(),
        after.limit() == before.limit(),
{
}

/// A file that a scan has found: its name, its length, and when it was last accessed.
pub type FoundFile = (Seq<char>, int, int);

/// The lengths of the files.
pub open spec fn lengths(found: Seq<FoundFile>) -> Seq<int> {
    Seq::new(found.len(), |i: int| found[i].1)
}

/// A scan without eviction takes note of `found` one after the other; the accounting is
/// `states[i]` before file `i`.
pub open spec fn is_scan(states: Seq<FsCacheEvictorInner>, found: Seq<FoundFile>) -> bool {
    &&& states.len() == found.len() + 1
    &&& forall|i: int|
        #![trigger found[i]]
        0 <= i < found.len() ==> has_tracked(
            states[i],
            states[i + 1],
            found[i].0,
            found[i].1,
            found[i].2,
        )
}

/// What a sweep keeps of `paths` is what the scan takes note of, in order.
pub open spec fn are_found(found: Seq<FoundFile>, paths: Seq<String>) -> bool {
    &&& found.len() == layout::kept_paths(paths).len()
    &&& forall|i: int|
        0 <= i < found.len() ==> (#[trigger] found[i]).0 == layout::kept_paths(paths)[i]@
}

/// A first scan accounts for exactly the files that the sweep keeps, each with its length, and
/// the total is the sum of the lengths.
pub proof fn lemma_scan_accounts_for_folder(
    paths: Seq<String>,
    states: Seq<FsCacheEvictorInner>,
    found: Seq<FoundFile>,
)
    requires
        are_found(found, paths),
        forall|i: int, j: int|
            0 <= i < j < found.len() ==> (#[trigger] found[i]).0 != (#[trigger] found[j]).0,
        is_scan(states, found),
        states[0].contents() == CacheContents::empty(),
        states[0].total() == 0,
    ensures
        forall|p: String|
            #![trigger paths.contains(p)]
            paths.contains(p) && !layout::is_orphan_path(p)
                ==> states.last().contents().contains_key(p@),
        forall|name: Seq<char>| #[trigger]
            states.last().contents().contains_key(name) ==> exists|p: String|
                #![trigger paths.contains(p)]
                paths.contains(p) && !layout::is_orphan_path(p) && p@ == name,
        forall|i: int|
            0 <= i < found.len() ==> states.last().contents()[(#[trigger] found[i]).0].1
                == found[i].1,
        states.last().total() == sum(lengths(found)),
{
    let keep = layout::kept_paths(paths);
    let pred = |p: String| !layout::is_orphan_path(p);
    assert(keep == paths.filter(pred));
    lemma_scan(states, found);
    let last = states.last().contents();
    assert forall|p: String|
        #![trigger paths.contains(p)]
        paths.contains(p) && !layout::is_orphan_path(p) implies last.contains_key(p@) by {
        let k = choose|k: int| 0 <= k < paths.len() && paths[k] == p;
        assert(pred(paths[k]));
        paths.lemma_filter_contains(pred, k);
        assert(keep.contains(p));
        let i = choose|i: int| 0 <= i < keep.len() && keep[i] == p;
        assert(found[i].0 == p@);
    }
    assert forall|name: Seq<char>| #[trigger] last.contains_key(name) implies exists|p: String|
        #![trigger paths.contains(p)]
        paths.contains(p) && !layout::is_orphan_path(p) && p@ == name by {
        let i = choose|i: int| 0 <= i < found.len() && (#[trigger] found[i]).0 == name;
        paths.lemma_filter_pred(pred, i);
        assert(keep.contains(keep[i]));
        paths.lemma_filter_contains_rev(pred, keep[i]);
    }
}

proof fn lemma_scan(states: Seq<FsCacheEvictorInner>, found: Seq<FoundFile>)
    requires
        forall|i: int, j: int|
            0 <= i < j < found.len() ==> (#[trigger] found[i]).0 != (#[trigger] found[j]).0,
        is_scan(states, found),
        states[0].contents() == CacheContents::empty(),
        states[0].total() == 0,
    ensures
        forall|name: Seq<char>| #[trigger]
            states.last().contents().contains_key(name) ==> exists|i: int|
                0 <= i < found.len() && (#[trigger] found[i]).0 == name,
        forall|i: int|
            0 <= i < found.len() ==> states.last().contents().contains_key(
                (#[trigger] found[i]).0,
            ) && states.last().contents()[found[i].0].1 == found[i].1,
        states.last().total() == sum(lengths(found)),
    decreases found.len(),
{
    if found.len() == 0 {
        assert(lengths(found) =~= Seq::<int>::empty());
        assert(states.last() == states[0]);
    } else {
        let n = found.len() - 1;
        let earlier = found.drop_last();
        let before = states.drop_last();
        assert forall|i: int|
            #![trigger earlier[i]]
            0 <= i < n implies has_tracked(
            before[i],
            before[i + 1],
            earlier[i].0,
            earlier[i].1,
            earlier[i].2,
        ) by {
            assert(found[i] == earlier[i]);
        }
        lemma_scan(before, earlier);
        let file = found[n];
        assert(has_tracked(states[n], states[n + 1], file.0, file.1, file.2));
        assert(before.last() == states[n]);
        assert(!states[n].contents().contains_key(file.0)) by {
            if states[n].contents().contains_key(file.0) {
                let i = choose|i: int|
                    0 <= i < earlier.len() && (#[trigger] earlier[i]).0 == file.0;
                assert(found[i].0 != found[n].0);
            }
        }
        assert(lengths(found) =~= lengths(earlier).push(file.1));
        lemma_sum_push(lengths(earlier), file.1);
        assert forall|i: int| 0 <= i < found.len() implies states.last().contents().contains_key(
            (#[trigger] found[i]).0,
        ) && states.last().contents()[found[i].0].1 == found[i].1 by {
            if i < n {
                assert(found[i] == earlier[i]);
                assert(found[i].0 != found[n].0);
            }
        }
        assert forall|name: Seq<char>| #[trigger]
            states.last().contents().contains_key(name) implies exists|i: int|
            0 <= i < found.len() && (#[trigger] found[i]).0 == name by {
            if name == file.0 {
                assert(found[n].0 == name);
            } else {
                assert(states[n].contents().contains_key(name));
                let i = choose|i: int|
                    0 <= i < earlier.len() && (#[trigger] earlier[i]).0 == name;
                assert(found[i].0 == name);
            }
        }
    }
}

/// A second scan that finds known files only changes neither the files, nor their sizes, nor
/// the total.
pub proof fn lemma_rescan_changes_nothing(
    states: Seq<FsCacheEvictorInner>,
    found: Seq<FoundFile>,
)
    requires
        is_scan(states, found),
        forall|i: int|
            0 <= i < found.len() ==> states[0].contents().contains_key((#[trigger] found[i]).0),
    ensures
        states.last().total() == states[0].total(),
        states.last().contents().dom() == states[0].contents().dom(),
        forall|name: Seq<char>| #[trigger]
            states[0].contents().contains_key(name) ==> states.last().contents()[name].1
                == states[0].contents()[name].1,
    decreases found.len(),
{
    if found.len() == 0 {
        assert(states.last() == states[0]);
    } else {
        let n = found.len() - 1;
        let earlier = found.drop_last();
        let before = states.drop_last();
        assert forall|i: int|
            #![trigger earlier[i]]
            0 <= i < n implies has_tracked(
            before[i],
            before[i + 1],
            earlier[i].0,
            earlier[i].1,
            earlier[i].2,
        ) && states[0].contents().contains_key(earlier[i].0) by {
            assert(found[i] == earlier[i]);
        }
        lemma_rescan_changes_nothing(before, earlier);
        let file = found[n];
        assert(has_tracked(states[n], states[n + 1], file.0, file.1, file.2));
        assert(before.last() == states[n]);
        lemma_rescan_keeps_sizes(states[n].contents(), file.0, file.1, file.2);
    }
}

/// What became of a file that was to be deleted.
pub enum DeleteOutcome {
    /// It was deleted.
    Deleted,
    /// It was gone already, deleted by someone else.
    Missing,
    /// It could not be deleted.
    Failed,
}

/// The targets whose files are gone, in order.
pub open spec fn gone_targets(
    targets: Seq<(String, usize)>,
    outcomes: Seq<DeleteOutcome>,
) -> Seq<(String, usize)>
    decreases targets.len(),
{
    if targets.len() == 0 {
        Seq::empty()
    } else {
        let before = gone_targets(targets.drop_last(), outcomes.drop_last());
        if outcomes.last() is Failed {
            before
        } else {
            before.push(targets.last())
        }
    }
}

proof fn lemma_gone_are_targets(
    targets: Seq<(String, usize)>,
    outcomes: Seq<DeleteOutcome>,
    j: int,
)
    requires
        0 <= j < gone_targets(targets, outcomes).len(),
    ensures
        exists|k: int|
            0 <= k < targets.len() && #[trigger] targets[k] == gone_targets(targets, outcomes)[j],
    decreases targets.len(),
{
    let before = gone_targets(targets.drop_last(), outcomes.drop_last());
    if j < before.len() {
        lemma_gone_are_targets(targets.drop_last(), outcomes.drop_last(), j);
        let k = choose|k: int|
            0 <= k < targets.drop_last().len() && #[trigger] targets.drop_last()[k] == before[j];
        assert(targets[k] == before[j]);
    } else {
        assert(targets[targets.len() - 1] == targets.last());
    }
}

/// The names of the targets.
pub open spec fn target_names(targets: Seq<(String, usize)>) -> Set<Seq<char>> {
    Set::new(|n: Seq<char>| exists|i: int| 0 <= i < targets.len() && (#[trigger] targets[i]).0@ == n)
}

/// The names of entries with size hints.
pub open spec fn entry_names(entries: Seq<(String, u64)>) -> Set<Seq<char>> {
    Set::new(|n: Seq<char>| exists|i: int| 0 <= i < entries.len() && (#[trigger] entries[i]).0@ == n)
}

/// Different files of the cache, with their sizes.
pub open spec fn are_targets(contents: CacheContents, targets: Seq<(String, usize)>) -> bool {
    &&& forall|i: int|
        #![trigger targets[i]]
        0 <= i < targets.len() ==> contents.contains_key(targets[i].0@) && targets[i].1
            == contents[targets[i].0@].1
    &&& forall|i: int, j: int|
        0 <= i < j < targets.len() ==> (#[trigger] targets[i]).0@ != (#[trigger] targets[j]).0@
}

proof fn lemma_target_names_push(targets: Seq<(String, usize)>, t: (String, usize))
    ensures
        forall|n: Seq<char>|
            target_names(targets.push(t)).contains(n) <==> #[trigger] target_names(
                targets,
            ).contains(n) || n == t.0@,
{
    let next = targets.push(t);
    assert forall|n: Seq<char>|
        target_names(next).contains(n) <==> #[trigger] target_names(targets).contains(n) || n
            == t.0@ by {
        if target_names(targets).contains(n) {
            let j = choose|j: int| 0 <= j < targets.len() && (#[trigger] targets[j]).0@ == n;
            assert(next[j].0@ == n);
        }
        if n == t.0@ {
            assert(next[targets.len() as int].0@ == n);
        }
        if target_names(next).contains(n) && n != t.0@ {
            let j = choose|j: int| 0 <= j < next.len() && (#[trigger] next[j]).0@ == n;
            assert(targets[j].0@ == n);
        }
    }
}

/// The sizes of the picked files in order.
pub open spec fn picked_sizes(targets: Seq<(String, usize)>) -> Seq<int> {
    Seq::new(targets.len(), |i: int| targets[i].1 as int)
}

/// `rest` is a file that was not picked before, nor as, target `i`, and was accessed
/// no earlier than that target.
pub open spec fn outlives(
    contents: CacheContents,
    targets: Seq<(String, usize)>,
    i: int,
    rest: Seq<char>,
) -> bool {
    &&& contents.contains_key(rest)
    &&& forall|j: int| 0 <= j <= i ==> (#[trigger] targets[j]).0@ != rest
    &&& contents[targets[i].0@].0 <= contents[rest].0
}

/// Target `i` was compared with a file that stayed at that point and is no older.
pub open spec fn gave_way(contents: CacheContents, targets: Seq<(String, usize)>, i: int) -> bool {
    exists|rest: Seq<char>| #[trigger] outlives(contents, targets, i, rest)
}

/// Targets that shrink a cache of `count` files and `total` bytes to `target_size`:
/// different files of the cache with their sizes, each picked while the cache was
/// still too large and each no newer than a file that stayed. Picking ends when the
/// cache is small enough or less than two files are left.
pub open spec fn is_pick(
    contents: CacheContents,
    total: int,
    count: nat,
    target_size: int,
    targets: Seq<(String, usize)>,
) -> bool {
    &&& are_targets(contents, targets)
    &&& forall|k: int|
        0 <= k < targets.len() ==> total - #[trigger] sum(picked_sizes(targets.take(k)))
            > target_size
    &&& forall|i: int| 0 <= i < targets.len() ==> #[trigger] gave_way(contents, targets, i)
    &&& total - sum(picked_sizes(targets)) <= target_size || count - targets.len() < 2
    &&& targets.len() > 0 ==> targets.len() < count
}

/// A file that was accessed later than every other file is never picked.
pub proof fn lemma_newest_is_never_picked(
    contents: CacheContents,
    total: int,
    count: nat,
    target_size: int,
    targets: Seq<(String, usize)>,
    newest: Seq<char>,
    i: int,
)
    requires
        is_pick(contents, total, count, target_size, targets),
        contents.contains_key(newest),
        forall|k: Seq<char>| #[trigger]
            contents.contains_key(k) && k != newest ==> contents[k].0 < contents[newest].0,
        0 <= i < targets.len(),
    ensures
        targets[i].0@ != newest,
{
    assert(gave_way(contents, targets, i));
    let rest = choose|rest: Seq<char>| #[trigger] outlives(contents, targets, i, rest);
    assert(targets[i].0@ != rest);
}

/// When all picked files are gone, the cache is no larger than the target, or a single file
/// is left.
pub proof fn lemma_eviction_reaches_target(
    before: FsCacheEvictorInner,
    after: FsCacheEvictorInner,
    target_size: int,
    targets: Seq<(String, usize)>,
    outcomes: Seq<DeleteOutcome>,
)
    requires
        is_pick(before.contents(), before.total(), before.names().len(), target_size, targets),
        outcomes.len() == targets.len(),
        forall|i: int| 0 <= i < outcomes.len() ==> !(#[trigger] outcomes[i] is Failed),
        after.total() == before.total() - sum(picked_sizes(gone_targets(targets, outcomes))),
        after.names().len() == before.names().len() - gone_targets(targets, outcomes).len(),
    ensures
        after.total() <= target_size || after.names().len() <= 1,
        before.names().len() > 0 ==> after.names().len() > 0,
{
    lemma_all_gone(targets, outcomes);
}

proof fn lemma_all_gone(targets: Seq<(String, usize)>, outcomes: Seq<DeleteOutcome>)
    requires
        outcomes.len() == targets.len(),
        forall|i: int| 0 <= i < outcomes.len() ==> !(#[trigger] outcomes[i] is Failed),
    ensures
        gone_targets(targets, outcomes) == targets,
    decreases targets.len(),
{
    if targets.len() > 0 {
        lemma_all_gone(targets.drop_last(), outcomes.drop_last());
        assert(outcomes.last() == outcomes[outcomes.len() - 1]);
        assert(targets.drop_last().push(targets.last()) =~= targets);
    } else {
        assert(gone_targets(targets, outcomes) =~= targets);
    }
}

/// A second access, as in a rescan, changes no file's size and brings in no file.
pub proof fn lemma_rescan_keeps_sizes(
    contents: CacheContents,
    name: Seq<char>,
    bytes: int,
    time: int,
)
    requires
        contents.contains_key(name),
    ensures
        touched(contents, name, bytes, time).dom() == contents.dom(),
        forall|k: Seq<char>| #[trigger]
            contents.contains_key(k) ==> touched(contents, name, bytes, time)[k].1
                == contents[k].1,
{
    assert(touched(contents, name, bytes, time).dom() =~= contents.dom());
}

/// How long the evictor keeps quiet after a warning that its queue is full.
pub const QUEUE_FULL_LOG_INTERVAL_MS: i64 = 30_000;

/// What became of an event that was offered to the evictor's queue.
pub enum SendOutcome {
    /// It is in the queue.
    Sent,
    /// The queue was full at this time, in milliseconds.
    Full { now_ms: i64 },
    /// Nobody reads the queue.
    Closed,
}

/// The intake before the evictor's queue: whether events go there at all, and how often
/// the queue has been full since the last warning.
pub struct FsCacheEvictor {
    started: bool,
    queue_full_count: u64,
    last_queue_full_log_ms: i64,
}

/// The difference of two times, held inside 64 bits.
pub open spec fn clamped_difference(a: i64, b: i64) -> int {
    if a - b > i64::MAX {
        i64::MAX as int
    } else if a - b < i64::MIN {
        i64::MIN as int
    } else {
        a - b
    }
}

impl FsCacheEvictor {
    pub closed spec fn has_started(self) -> bool {
        self.started
    }

    /// How often the queue has been full since the last warning.
    pub closed spec fn full_count(self) -> u64 {
        self.queue_full_count
    }

    /// When the last warning was.
    pub closed spec fn last_warning_ms(self) -> i64 {
        self.last_queue_full_log_ms
    }

    /// An intake that is still closed.
    pub fn new() -> (r: FsCacheEvictor)
        ensures
            !r.has_started(),
            r.full_count() == 0,
            r.last_warning_ms() == i64::MIN,
    {
        FsCacheEvictor {
            started: false,
            queue_full_count: 0,
            last_queue_full_log_ms: i64::MIN,
        }
    }

    /// Lets events through from now on. An evictor starts once.
    pub fn start(&mut self)
        requires
            !old(self).has_started(),
        ensures
            final(self).has_started(),
            final(self).full_count() == old(self).full_count(),
            final(self).last_warning_ms() == old(self).last_warning_ms(),
    {
        self.started = true;
    }

    /// Whether events go to the queue. Before the start they are accepted and dropped:
    /// the first scan finds the files anyway.
    pub fn started(&self) -> (r: bool)
        ensures
            r == self.has_started(),
    {
        self.started
    }

    /// Whether `count` deleted files are to be reported to the accounting.
    pub fn should_forget(&self, count: usize) -> (r: bool)
        ensures
            r <==> count > 0 && self.has_started(),
    {
        count > 0 && self.started
    }

    /// Takes note of what became of an event. Returns whether it was accepted, and the
    /// number of full queues to warn about, if a warning is due.
    pub fn record_send(&mut self, outcome: SendOutcome) -> (r: (bool, Option<u64>))
        ensures
            has_recorded_send(*old(self), *final(self), outcome, r),
    {
        match outcome {
            SendOutcome::Sent => (true, None),
            SendOutcome::Closed => (false, None),
            SendOutcome::Full { now_ms } => {
                self.queue_full_count = if self.queue_full_count == u64::MAX {
                    0
                } else {
                    self.queue_full_count + 1
                };
                let since: i128 = now_ms as i128 - self.last_queue_full_log_ms as i128;
                if since >= QUEUE_FULL_LOG_INTERVAL_MS as i128 {
                    let count: u64 = self.queue_full_count;
                    self.queue_full_count = 0;
                    self.last_queue_full_log_ms = now_ms;
                    (false, Some(count))
                } else {
                    (false, None)
                }
            },
        }
    }
}

/// `after` is `before` when it has taken note of what became of an event. `r` is whether it was
/// accepted, and the number of full queues to warn about.
pub open spec fn has_recorded_send(
    before: FsCacheEvictor,
    after: FsCacheEvictor,
    outcome: SendOutcome,
    r: (bool, Option<u64>),
) -> bool {
    &&& r.0 <==> outcome is Sent
    &&& after.has_started() == before.has_started()
    &&& match outcome {
        SendOutcome::Full { now_ms } => {
            let count = if before.full_count() == u64::MAX {
                0
            } else {
                before.full_count() + 1
            };
            if clamped_difference(now_ms, before.last_warning_ms()) >= QUEUE_FULL_LOG_INTERVAL_MS {
                &&& r.1 matches Some(n) && n == count
                &&& after.full_count() == 0
                &&& after.last_warning_ms() == now_ms
            } else {
                &&& r.1 is None
                &&& after.full_count() == count
                &&& after.last_warning_ms() == before.last_warning_ms()
            }
        },
        _ => {
            &&& r.1 is None
            &&& after.full_count() == before.full_count()
            &&& after.last_warning_ms() == before.last_warning_ms()
        },
    }
}

/// An event is accepted exactly if it is in the queue. A full queue is warned of when the last
/// warning is half a minute old or more, and counted until then; the warning tells the count,
/// with this event in it.
pub proof fn lemma_full_queue_is_warned_of(
    before: FsCacheEvictor,
    after: FsCacheEvictor,
    outcome: SendOutcome,
    r: (bool, Option<u64>),
)
    requires
        has_recorded_send(before, after, outcome, r),
        before.full_count() < u64::MAX,
    ensures
        r.0 <==> outcome == SendOutcome::Sent,
        r.1 is Some <==> (outcome matches SendOutcome::Full { now_ms } && now_ms
            - before.last_warning_ms() >= 30_000),
        r.1 matches Some(n) ==> n == before.full_count() + 1 && after.full_count() == 0,
        r.1 is None ==> after.last_warning_ms() == before.last_warning_ms(),
        r.1 is None && outcome is Full ==> after.full_count() == before.full_count() + 1,
        !(outcome is Full) ==> after.full_count() == before.full_count(),
        after.has_started() == before.has_started(),
{
}

/// Between two warnings there is half a minute at least.
pub proof fn lemma_warnings_are_apart(
    first: FsCacheEvictor,
    second: FsCacheEvictor,
    third: FsCacheEvictor,
    earlier_ms: i64,
    later_ms: i64,
    r: (bool, Option<u64>),
    s: (bool, Option<u64>),
)
    requires
        has_recorded_send(first, second, SendOutcome::Full { now_ms: earlier_ms }, r),
        has_recorded_send(second, third, SendOutcome::Full { now_ms: later_ms }, s),
        r.1 is Some,
    ensures
        s.1 is Some <==> later_ms - earlier_ms >= 30_000,
        s.1 matches Some(n) ==> n == 1,
{
}

} // verus!
