//! The cache storage on `io_uring` workers: how many workers there are and which one
//! serves a location, which open files a worker keeps, and the tee of this storage.

use crate::buffers;
use crate::cached_object_store::file_handles::{HandleEvent, HandleStep};
use crate::cached_object_store::layout;
use crate::cached_object_store::parts;
use crate::cached_object_store::parts::{PartID, PartSplitter};
use crate::cached_object_store::tee;
use crate::cached_object_store::tee::TeeOutcome;
use crate::path::Path;
use crate::text;
use bytes::Bytes;
use std::collections::hash_map::DefaultHasher;
use std::hash::{Hash, Hasher};
use vstd::hash_map::StringHashMap;
use vstd::prelude::*;
use vstd::std_specs::hash::DefaultHasherAdditionalSpecFns;
use vstd::string::*;

verus! {

/// What a hasher that has taken in `writes` has taken in after `str::hash` on a text.
pub uninterp spec fn fed(writes: Seq<Seq<u8>>, text: Seq<char>) -> Seq<Seq<u8>>;

/// `<str as Hash>::hash`: feeds the text to the hasher. What goes in depends on the text
/// alone and comes behind what the hasher has taken in before; its form is left to the name.
#[verifier::external_body]
fn feed(hasher: &mut DefaultHasher, text: &str)
    ensures
        final(hasher)@ == fed(old(hasher)@, text@),
{
    text.hash(hasher)
}

/// The hash of a text under a fresh hasher.
pub open spec fn text_hash(text: Seq<char>) -> u64 {
    DefaultHasher::spec_finish(fed(Seq::empty(), text))
}

fn hash_text(text: &str) -> (r: u64)
    ensures
        r == text_hash(text@),
{
    let mut hasher = DefaultHasher::new();
    feed(&mut hasher, text);
    hasher.finish()
}

/// The worker for a hash.
pub open spec fn worker_of(hash: u64, workers: usize) -> usize {
    if workers == 1 {
        0usize
    } else {
        (hash as usize) % workers
    }
}

/// The worker for a hash.
pub fn worker_for_hash(hash: u64, workers: usize) -> (r: usize)
    requires
        workers > 0,
    ensures
        r == worker_of(hash, workers),
        r < workers,
{
    if workers == 1 {
        0
    } else {
        (hash as usize) % workers
    }
}

/// The worker that serves `location`. A location has one worker for as long as their number
/// stays, so what the worker keeps of its files stays consistent.
pub fn worker_for_location(location: &Path, workers: usize) -> (r: usize)
    requires
        workers > 0,
    ensures
        r == worker_of(text_hash(location@), workers),
        r < workers,
{
    worker_for_hash(hash_text(location.as_str()), workers)
}

/// The characters of a setting, if it is set.
pub open spec fn setting_text(setting: Option<&str>) -> Option<Seq<char>> {
    match setting {
        Some(s) => Some(s@),
        None => None,
    }
}

/// The number of workers that a setting stands for.
pub open spec fn workers_set(setting: Option<Seq<char>>) -> usize {
    match setting {
        Some(s) => match text::parsed_usize(s) {
            Some(n) => if n > 0 {
                n
            } else {
                1
            },
            None => 1,
        },
        None => 1,
    }
}

/// The number that a setting stands for, or `otherwise`.
pub open spec fn number_set(setting: Option<Seq<char>>, otherwise: u64) -> u64 {
    match setting {
        Some(s) => match text::parsed_u64(s) {
            Some(n) => n,
            None => otherwise,
        },
        None => otherwise,
    }
}

/// The size that a setting stands for.
pub open spec fn size_set(setting: Option<Seq<char>>) -> usize {
    match setting {
        Some(s) => match text::parsed_usize(s) {
            Some(n) => n,
            None => 0,
        },
        None => 0,
    }
}

/// A setting that is the numeral of a number stands for that number, but for no workers, which
/// are one. What is not set, or begins with something that is neither a digit nor a plus sign,
/// leaves the number that holds otherwise. There is always a worker.
pub proof fn lemma_settings(n: nat, s: Seq<char>, otherwise: u64)
    ensures
        0 < n <= usize::MAX ==> workers_set(Some(text::decimal(n))) == n,
        workers_set(Some(text::decimal(0))) == 1,
        workers_set(None) == 1,
        workers_set(Some(s)) >= 1,
        n <= u64::MAX ==> number_set(Some(text::decimal(n)), otherwise) == n,
        number_set(None, otherwise) == otherwise,
        n <= usize::MAX ==> size_set(Some(text::decimal(n))) == n,
        size_set(None) == 0,
        s.len() == 0 || (s[0] != '+' && !('0' <= s[0] <= '9')) ==> {
            &&& workers_set(Some(s)) == 1
            &&& number_set(Some(s), otherwise) == otherwise
            &&& size_set(Some(s)) == 0
        },
{
    text::lemma_parse_reads_back(n);
    text::lemma_parse_reads_back(0);
    text::lemma_parse_tells_numbers(s, u64::MAX as nat, 0);
    text::lemma_parse_tells_numbers(s, usize::MAX as nat, 0);
    if s.len() == 0 {
        assert(s =~= Seq::<char>::empty());
    }
}

/// The number of workers for a setting: what it spells, if that is a positive number, else
/// one.
pub fn worker_count(setting: Option<&str>) -> (r: usize)
    ensures
        r == workers_set(setting_text(setting)),
{
    match setting {
        Some(s) => match text::parse_usize(s) {
            Some(n) => if n > 0 {
                n
            } else {
                1
            },
            None => 1,
        },
        None => 1,
    }
}

/// The number that a setting spells, or `otherwise` if it is not set or spells none.
pub fn setting_or(setting: Option<&str>, otherwise: u64) -> (r: u64)
    ensures
        r == number_set(setting_text(setting), otherwise),
{
    match setting {
        Some(s) => match text::parse_u64(s) {
            Some(n) => n,
            None => otherwise,
        },
        None => otherwise,
    }
}

/// The size that a setting spells, or zero if it is not set or spells none.
pub fn size_setting(setting: Option<&str>) -> (r: usize)
    ensures
        r == size_set(setting_text(setting)),
{
    match setting {
        Some(s) => match text::parse_usize(s) {
            Some(n) => n,
            None => 0,
        },
        None => 0,
    }
}

/// White space, as Unicode has it (the property `White_Space`).
pub open spec fn is_white_space(c: char) -> bool {
    ||| '\u{9}' <= c <= '\u{D}'
    ||| c == '\u{20}'
    ||| c == '\u{85}'
    ||| c == '\u{A0}'
    ||| c == '\u{1680}'
    ||| '\u{2000}' <= c <= '\u{200A}'
    ||| c == '\u{2028}'
    ||| c == '\u{2029}'
    ||| c == '\u{202F}'
    ||| c == '\u{205F}'
    ||| c == '\u{3000}'
}

/// `s` without the white space around it.
pub open spec fn trimmed(s: Seq<char>) -> Seq<char>
    decreases s.len(),
{
    if s.len() > 0 && is_white_space(s[0]) {
        trimmed(s.skip(1))
    } else if s.len() > 0 && is_white_space(s.last()) {
        trimmed(s.drop_last())
    } else {
        s
    }
}

/// `str::trim`: the text without the white space around it, where white space is what
/// Unicode's property `White_Space` says it is.
#[verifier::external_body]
fn trim(s: &str) -> (r: String)
    ensures
        r@ == trimmed(s@),
{
    s.trim().to_owned()
}

/// The pieces of `s` between its commas.
pub open spec fn comma_pieces(s: Seq<char>) -> Seq<Seq<char>>
    decreases s.len(),
{
    if s.len() == 0 {
        seq![Seq::empty()]
    } else {
        let before = comma_pieces(s.drop_last());
        if s.last() == ',' {
            before.push(Seq::empty())
        } else {
            before.drop_last().push(before.last().push(s.last()))
        }
    }
}

/// The numbers among the pieces, white space around them aside.
pub open spec fn piece_numbers(pieces: Seq<Seq<char>>) -> Seq<usize>
    decreases pieces.len(),
{
    if pieces.len() == 0 {
        Seq::empty()
    } else {
        let before = piece_numbers(pieces.drop_last());
        match text::parsed_usize(trimmed(pieces.last())) {
            Some(n) => before.push(n),
            None => before,
        }
    }
}

/// The processors that a list such as `0,1,2` names. What is no number is passed over.
pub fn listed_cpus(list: &str) -> (r: Vec<usize>)
    ensures
        r@ == piece_numbers(comma_pieces(list@)),
{
    let chars = text::chars_of(list);
    let mut out: Vec<usize> = Vec::new();
    let mut piece = String::new();
    let mut i: usize = 0;
    proof {
        assert(list@.take(0) =~= Seq::<char>::empty());
        assert(comma_pieces(list@.take(0)).drop_last() =~= Seq::<Seq<char>>::empty());
        assert(comma_pieces(list@.take(0)).last() =~= piece@);
    }
    while i < chars.len()
        invariant
            chars@ == list@,
            i <= chars@.len(),
            comma_pieces(list@.take(i as int)).len() > 0,
            out@ == piece_numbers(comma_pieces(list@.take(i as int)).drop_last()),
            piece@ == comma_pieces(list@.take(i as int)).last(),
        decreases chars@.len() - i,
    {
        let c: char = chars[i];
        let ghost done = comma_pieces(list@.take(i as int));
        let ghost next = comma_pieces(list@.take(i + 1));
        proof {
            assert(list@.take(i + 1).drop_last() =~= list@.take(i as int));
            assert(list@.take(i + 1).last() == c);
        }
        if c == ',' {
            proof {
                assert(next.drop_last() =~= done);
            }
            if let Some(n) = text::parse_usize(trim(piece.as_str()).as_str()) {
                out.push(n);
            }
            piece = String::new();
            assert(piece@ =~= next.last());
        } else {
            text::push_char(&mut piece, c);
            assert(next.drop_last() =~= done.drop_last());
        }
        i = i + 1;
    }
    proof {
        assert(list@.take(i as int) =~= list@);
    }
    if let Some(n) = text::parse_usize(trim(piece.as_str()).as_str()) {
        out.push(n);
    }
    out
}

/// `r` is the processor of a worker, if the list names any.
pub open spec fn is_cpu_of_worker(cpus: Seq<usize>, worker: int, r: Option<usize>) -> bool {
    &&& r is None <==> cpus.len() == 0
    &&& r matches Some(cpu) ==> cpu == cpus[worker % cpus.len() as int]
}

/// The processor of a worker: the list is gone through in turn. With an empty list the
/// choice is left to the system.
pub fn cpu_for_worker(cpus: &Vec<usize>, worker: usize) -> (r: Option<usize>)
    ensures
        is_cpu_of_worker(cpus@, worker as int, r),
{
    if cpus.len() == 0 {
        None
    } else {
        Some(cpus[worker % cpus.len()])
    }
}

/// The name of a head or of a part.
pub open spec fn is_cache_name(file_name: Seq<char>) -> bool {
    file_name == "_head"@ || layout::begins_with(file_name, "_part"@)
}

/// The head and the parts of an object are its cache files; a name that begins otherwise is
/// none, nor is one that goes on behind `_head`.
pub proof fn lemma_cache_names(part_number: int, part_size: int, name: Seq<char>)
    ensures
        is_cache_name("_head"@),
        is_cache_name(layout::part_file_name(part_number, part_size)),
        name.len() > 0 ==> !is_cache_name("_head"@ + name),
        name.len() >= 5 && name.take(5) != "_part"@ && name != "_head"@ ==> !is_cache_name(name),
        name.len() < 5 ==> !is_cache_name(name),
        name.len() >= 5 && name.take(5) == "_part"@ ==> is_cache_name(name),
{
    reveal_strlit("_head");
    reveal_strlit("_part");
    let part = layout::part_file_name(part_number, part_size);
    assert(part.take(5) =~= "_part"@);
    if name.len() > 0 {
        let longer = "_head"@ + name;
        assert(longer.len() > 5);
        assert(longer.take(5)[1] == 'h');
        assert("_part"@[1] == 'p');
    }
}

/// Whether a file in the folder of an object is its head or one of its parts.
pub fn is_cache_file(file_name: &str) -> (r: bool)
    ensures
        r <==> is_cache_name(file_name@),
{
    if file_name.to_owned() == String::from_str("_head") {
        return true;
    }
    proof {
        reveal_strlit("_part");
    }
    let len: usize = file_name.unicode_len();
    if len < 5 {
        return false;
    }
    let start = file_name.substring_char(0, 5).to_owned();
    assert(start@ =~= file_name@.take(5));
    start == String::from_str("_part")
}

/// `path` is `folder` or lies under it.
pub open spec fn is_under(path: Seq<char>, folder: Seq<char>) -> bool {
    path == folder || layout::begins_with(path, layout::deeper(folder, Seq::empty()))
}

/// `paths` are the paths in `folder` or deeper for which a file is kept, each of them once, and
/// `fds` are the files that are kept for them.
pub open spec fn are_kept_under(
    paths: Seq<Seq<char>>,
    fds: Seq<u64>,
    kept: Map<Seq<char>, u64>,
    folder: Seq<char>,
) -> bool {
    &&& paths.no_duplicates()
    &&& forall|k: Seq<char>| #[trigger]
        paths.contains(k) <==> kept.contains_key(k) && is_under(k, folder)
    &&& fds == paths.map_values(|k: Seq<char>| kept[k])
}

/// The step that follows an event of a request for an open file, and what is kept then.
pub open spec fn is_fd_step(
    before: Map<Seq<char>, u64>,
    after: Map<Seq<char>, u64>,
    path: Seq<char>,
    event: HandleEvent,
    r: HandleStep,
) -> bool {
    match event {
        HandleEvent::Begin => {
            &&& after == before
            &&& r == if before.contains_key(path) {
                HandleStep::Check { handle: before[path] }
            } else {
                HandleStep::Open
            }
        },
        HandleEvent::Checked { handle, linked } => if linked {
            &&& after == before
            &&& r == (HandleStep::Use { handle })
        } else {
            &&& after == before.remove(path)
            &&& r == HandleStep::Open
        },
        HandleEvent::Opened { handle } => {
            &&& after == before.insert(path, handle)
            &&& r == (HandleStep::Use { handle })
        },
    }
}

/// The files that a worker keeps open, as numbers that stand for them.
pub struct FdCache {
    fds: StringHashMap<u64>,
    names: Vec<String>,
}

impl FdCache {
    /// The files by path.
    pub closed spec fn kept(self) -> Map<Seq<char>, u64> {
        self.fds@
    }

    /// The list names exactly the files that are kept, each once.
    pub closed spec fn wf(self) -> bool {
        &&& forall|i: int|
            0 <= i < self.names@.len() ==> self.fds@.contains_key((#[trigger] self.names@[i])@)
        &&& forall|k: Seq<char>| #[trigger]
            self.fds@.contains_key(k) ==> exists|i: int|
                0 <= i < self.names@.len() && (#[trigger] self.names@[i])@ == k
        &&& forall|i: int, j: int|
            0 <= i < j < self.names@.len() ==> (#[trigger] self.names@[i])@ != (
            #[trigger] self.names@[j])@
    }

    /// No files.
    pub fn new() -> (r: FdCache)
        ensures
            r.wf(),
            r.kept() == Map::<Seq<char>, u64>::empty(),
    {
        FdCache { fds: StringHashMap::new(), names: Vec::new() }
    }

    /// The file kept for `path`.
    pub fn get(&self, path: &str) -> (r: Option<u64>)
        ensures
            r is Some <==> self.kept().contains_key(path@),
            r matches Some(fd) ==> fd == self.kept()[path@],
    {
        match self.fds.get(path) {
            Some(fd) => Some(*fd),
            None => None,
        }
    }

    /// Keeps `fd` for `path`, in the place of what was kept before.
    pub fn insert(&mut self, path: String, fd: u64)
        requires
            old(self).wf(),
        ensures
            final(self).wf(),
            final(self).kept() == old(self).kept().insert(path@, fd),
    {
        let ghost before = *self;
        let ghost name = path@;
        let known = self.fds.contains_key(path.as_str());
        if !known {
            self.names.push(path.clone());
        }
        self.fds.insert(path, fd);
        proof {
            if known {
                assert forall|k: Seq<char>| #[trigger] self.fds@.contains_key(k) implies exists|
                    i: int,
                | 0 <= i < self.names@.len() && (#[trigger] self.names@[i])@ == k by {
                    assert(before.fds@.contains_key(k));
                }
            } else {
                let n = before.names@.len() as int;
                assert forall|k: Seq<char>| #[trigger] self.fds@.contains_key(k) implies exists|
                    i: int,
                | 0 <= i < self.names@.len() && (#[trigger] self.names@[i])@ == k by {
                    if k == name {
                        assert(self.names@[n]@ == k);
                    } else {
                        assert(before.fds@.contains_key(k));
                        let i = choose|i: int|
                            0 <= i < before.names@.len() && (#[trigger] before.names@[i])@ == k;
                        assert(self.names@[i]@ == k);
                    }
                }
                assert forall|i: int, j: int| 0 <= i < j < self.names@.len() implies (
                #[trigger] self.names@[i])@ != (#[trigger] self.names@[j])@ by {
                    assert(self.names@[i] == before.names@[i]);
                    assert(before.fds@.contains_key(before.names@[i]@));
                    if j < n {
                        assert(self.names@[j] == before.names@[j]);
                    }
                }
            }
        }
    }

    /// The next step of a request for an open file after `event`. A stale file is dropped
    /// and opened anew, and a file that was opened is kept.
    pub fn next_step(&mut self, path: &str, event: HandleEvent) -> (r: HandleStep)
        requires
            old(self).wf(),
        ensures
            final(self).wf(),
            is_fd_step(old(self).kept(), final(self).kept(), path@, event, r),
    {
        match event {
            HandleEvent::Begin => match self.get(path) {
                Some(handle) => HandleStep::Check { handle },
                None => HandleStep::Open,
            },
            HandleEvent::Checked { handle, linked } => {
                if linked {
                    HandleStep::Use { handle }
                } else {
                    let _ = self.remove(path);
                    HandleStep::Open
                }
            },
            HandleEvent::Opened { handle } => {
                self.insert(path.to_owned(), handle);
                HandleStep::Use { handle }
            },
        }
    }

    /// Where `path` stands in the list.
    fn position(&self, path: &str) -> (r: Option<usize>)
        requires
            self.wf(),
        ensures
            r is Some <==> self.fds@.contains_key(path@),
            r matches Some(i) ==> i < self.names@.len() && self.names@[i as int]@ == path@,
    {
        let wanted = path.to_owned();
        let mut i: usize = 0;
        while i < self.names.len()
            invariant
                self.wf(),
                wanted@ == path@,
                i <= self.names@.len(),
                forall|k: int| 0 <= k < i ==> (#[trigger] self.names@[k])@ != path@,
            decreases self.names@.len() - i,
        {
            if self.names[i] == wanted {
                assert(self.fds@.contains_key(self.names@[i as int]@));
                return Some(i);
            }
            i = i + 1;
        }
        None
    }

    /// Drops the file at position `i` of the list and returns it. The last one takes its
    /// place.
    fn remove_at(&mut self, i: usize) -> (r: u64)
        requires
            old(self).wf(),
            i < old(self).names@.len(),
        ensures
            final(self).wf(),
            old(self).kept().contains_key(old(self).names@[i as int]@),
            r == old(self).kept()[old(self).names@[i as int]@],
            final(self).kept() == old(self).kept().remove(old(self).names@[i as int]@),
            final(self).names@.len() == old(self).names@.len() - 1,
            forall|k: int| 0 <= k < i ==> #[trigger] final(self).names@[k] == old(self).names@[k],
    {
        let ghost before = *self;
        let ghost last = before.names@.len() - 1;
        assert(before.fds@.contains_key(before.names@[i as int]@));
        let path = self.names.swap_remove(i);
        let fd: u64 = match self.fds.get(path.as_str()) {
            Some(fd) => *fd,
            None => 0,
        };
        self.fds.remove(path.as_str());
        proof {
            assert forall|a: int| 0 <= a < self.names@.len() implies (#[trigger] self.names@[a])@
                != path@ && self.fds@.contains_key(self.names@[a]@) by {
                let b = if a == i {
                    last
                } else {
                    a
                };
                assert(self.names@[a] == before.names@[b]);
                assert(before.fds@.contains_key(before.names@[b]@));
                if b < i {
                    assert(before.names@[b]@ != before.names@[i as int]@);
                } else {
                    assert(before.names@[i as int]@ != before.names@[b]@);
                }
            }
            assert forall|a: int, b: int| 0 <= a < b < self.names@.len() implies (
            #[trigger] self.names@[a])@ != (#[trigger] self.names@[b])@ by {
                let c = if a == i {
                    last
                } else {
                    a
                };
                let d = if b == i {
                    last
                } else {
                    b
                };
                assert(self.names@[a] == before.names@[c]);
                assert(self.names@[b] == before.names@[d]);
                if c < d {
                    assert(before.names@[c]@ != before.names@[d]@);
                } else {
                    assert(before.names@[d]@ != before.names@[c]@);
                }
            }
            assert forall|k: Seq<char>| #[trigger] self.fds@.contains_key(k) implies exists|a: int|
                0 <= a < self.names@.len() && (#[trigger] self.names@[a])@ == k by {
                assert(before.fds@.contains_key(k));
                let b = choose|b: int|
                    0 <= b < before.names@.len() && (#[trigger] before.names@[b])@ == k;
                let a = if b == last {
                    i as int
                } else {
                    b
                };
                assert(self.names@[a]@ == k);
            }
        }
        fd
    }

    /// Drops what is kept for `path` and returns it.
    pub fn remove(&mut self, path: &str) -> (r: Option<u64>)
        requires
            old(self).wf(),
        ensures
            final(self).wf(),
            final(self).kept() == old(self).kept().remove(path@),
            r is Some <==> old(self).kept().contains_key(path@),
            r matches Some(fd) ==> fd == old(self).kept()[path@],
    {
        match self.position(path) {
            Some(i) => Some(self.remove_at(i)),
            None => {
                assert(self.kept().remove(path@) =~= self.kept());
                None
            },
        }
    }

    /// Drops all files in `folder` or deeper, and returns them, each as often as it was kept.
    pub fn remove_under(&mut self, folder: &str) -> (r: Vec<u64>)
        requires
            old(self).wf(),
        ensures
            final(self).wf(),
            final(self).kept() == old(self).kept().remove_keys(
                Set::new(|k: Seq<char>| is_under(k, folder@)),
            ),
            exists|paths: Seq<Seq<char>>| #[trigger]
                are_kept_under(paths, r@, old(self).kept(), folder@),
            r@.len() == old(self).kept().dom().filter(|k: Seq<char>| is_under(k, folder@)).len(),
    {
        let ghost before = *self;
        let ghost mut paths: Seq<Seq<char>> = Seq::empty();
        let mut out: Vec<u64> = Vec::new();
        let mut i: usize = 0;
        while i < self.names.len()
            invariant
                self.wf(),
                i <= self.names@.len(),
                forall|a: int|
                    0 <= a < i ==> !is_under((#[trigger] self.names@[a])@, folder@),
                forall|k: Seq<char>| #[trigger]
                    self.fds@.contains_key(k) ==> before.fds@.contains_key(k) && self.fds@[k]
                        == before.fds@[k],
                paths.no_duplicates(),
                forall|k: Seq<char>| #[trigger]
                    paths.contains(k) <==> before.fds@.contains_key(k) && !self.fds@.contains_key(
                        k,
                    ),
                forall|k: Seq<char>| #[trigger] paths.contains(k) ==> is_under(k, folder@),
                out@ == paths.map_values(|k: Seq<char>| before.fds@[k]),
            decreases self.names@.len() - i,
        {
            if lies_under(self.names[i].as_str(), folder) {
                let ghost now = *self;
                let ghost name = self.names@[i as int]@;
                let fd: u64 = self.remove_at(i);
                out.push(fd);
                proof {
                    let earlier = paths;
                    assert(before.fds@.contains_key(name));
                    assert(!earlier.contains(name));
                    paths = earlier.push(name);
                    assert forall|k: Seq<char>| #[trigger] paths.contains(k) <==> earlier.contains(
                        k,
                    ) || k == name by {
                        if earlier.contains(k) {
                            let a = earlier.index_of(k);
                            assert(paths[a] == k);
                        }
                        assert(paths[earlier.len() as int] == name);
                    }
                    assert forall|k: Seq<char>| #[trigger] paths.contains(k)
                        <==> before.fds@.contains_key(k) && !self.fds@.contains_key(k) by {
                        assert(earlier.contains(k) <==> before.fds@.contains_key(k)
                            && !now.fds@.contains_key(k));
                    }
                    assert(out@ =~= paths.map_values(|k: Seq<char>| before.fds@[k]));
                }
            } else {
                i = i + 1;
            }
        }
        proof {
            let under = Set::new(|k: Seq<char>| is_under(k, folder@));
            assert forall|k: Seq<char>| #[trigger] self.fds@.contains_key(k) implies !is_under(
                k,
                folder@,
            ) by {
                let a = choose|a: int|
                    0 <= a < self.names@.len() && (#[trigger] self.names@[a])@ == k;
            }
            assert forall|k: Seq<char>| #[trigger] before.fds@.contains_key(k) && !is_under(
                k,
                folder@,
            ) implies self.fds@.contains_key(k) by {
                assert(!paths.contains(k));
            }
            assert(self.kept() =~= before.kept().remove_keys(under));
            assert forall|k: Seq<char>| #[trigger] paths.contains(k) <==> before.kept().contains_key(
                k,
            ) && is_under(k, folder@) by {
                if before.fds@.contains_key(k) && is_under(k, folder@) {
                    assert(!self.fds@.contains_key(k));
                }
            }
            assert(are_kept_under(paths, out@, before.kept(), folder@));
            paths.unique_seq_to_set();
            assert(paths.to_set() =~= before.kept().dom().filter(
                |k: Seq<char>| is_under(k, folder@),
            ));
        }
        out
    }
}

fn lies_under(path: &str, folder: &str) -> (r: bool)
    ensures
        r <==> is_under(path@, folder@),
{
    let p = path.to_owned();
    let mut inside = folder.to_owned();
    if p == inside {
        return true;
    }
    layout::push_component(&mut inside, "");
    proof {
        reveal_strlit("");
        assert(""@ =~= Seq::<char>::empty());
    }
    let n: usize = inside.as_str().unicode_len();
    if path.unicode_len() < n {
        return false;
    }
    let start = path.substring_char(0, n).to_owned();
    assert(start@ =~= path@.take(n as int));
    start == inside
}

/// The temporary name of a part that tee `tee_id` writes.
pub open spec fn uring_part_tmp(place: Seq<char>, tee_id: int, part_number: int) -> Seq<char> {
    place + "._tee"@ + text::decimal(tee_id as nat) + "-"@ + text::decimal(part_number as nat)
}

/// The temporary name of the head that tee `tee_id` writes.
pub open spec fn uring_head_tmp(place: Seq<char>, tee_id: int) -> Seq<char> {
    place + "._tee"@ + text::decimal(tee_id as nat) + "-head"@
}

/// A part that is to be written under a temporary name.
pub struct UringPart {
    pub tmp_path: String,
    pub place: String,
    pub bytes: Bytes,
}

/// `part` is part `part_number` of an object, on its way to its place.
pub open spec fn is_uring_part(
    part: UringPart,
    tee: IoUringCacheTee,
    part_number: int,
    data: Seq<u8>,
) -> bool {
    &&& (part.tmp_path@, part.place@) == part_pair(tee, part_number)
    &&& buffers::bytes_contents(part.bytes) == data
}

/// The temporary name of part `part_number` of an object, and its place.
pub open spec fn part_pair(tee: IoUringCacheTee, part_number: int) -> (Seq<char>, Seq<char>) {
    let place = layout::part_path(tee.root(), tee.object(), part_number, tee.part_size());
    (uring_part_tmp(place, tee.id(), part_number), place)
}

/// The temporary name of the head of an object, and its place.
pub open spec fn head_pair(tee: IoUringCacheTee) -> (Seq<char>, Seq<char>) {
    let place = layout::head_path(tee.root(), tee.object());
    (uring_head_tmp(place, tee.id()), place)
}

/// The two tees write the same object to the same place.
pub open spec fn same_target(a: IoUringCacheTee, b: IoUringCacheTee) -> bool {
    &&& a.root() == b.root()
    &&& a.object() == b.object()
    &&& a.part_size() == b.part_size()
    &&& a.id() == b.id()
}

/// How a tee ends whose writes have come to an end.
pub open spec fn is_outcome(tee: IoUringCacheTee, head_written: bool, r: TeeOutcome) -> bool {
    match r {
        TeeOutcome::Rename(files) => {
            &&& !tee.is_poisoned() && head_written
            &&& tee::pairs(files@) == tee.written().push(head_pair(tee))
            &&& forall|i: int|
                0 <= i < tee.handed() ==> (#[trigger] tee::pairs(files@)[i]) == part_pair(tee, i)
        },
        TeeOutcome::CleanUp(files) => {
            let names = if tee.is_poisoned() {
                tee.written()
            } else {
                tee.written().push(head_pair(tee))
            };
            &&& tee.is_poisoned() || !head_written
            &&& files@.len() == names.len()
            &&& forall|i: int| 0 <= i < files@.len() ==> (#[trigger] files@[i])@ == names[i].0
        },
    }
}

/// A tee of this storage. Each part is written before the next one is handed out; what was
/// written is renamed into place when the object is complete.
pub struct IoUringCacheTee {
    root_folder: String,
    location: Path,
    part_size: usize,
    tee_id: u64,
    splitter: PartSplitter,
    pending_renames: Vec<(String, String)>,
    sealed: bool,
    tail_out: bool,
    poisoned: bool,
}

/// `after` is `before` when it has taken in `buf` and handed out `out`.
pub open spec fn has_extended(
    before: IoUringCacheTee,
    after: IoUringCacheTee,
    buf: Seq<u8>,
    out: Seq<UringPart>,
) -> bool {
    &&& same_target(before, after)
    &&& after.is_poisoned() == before.is_poisoned()
    &&& after.is_sealed() == before.is_sealed()
    &&& after.written() == before.written()
    &&& if before.is_poisoned() {
        &&& out.len() == 0
        &&& after.held() == before.held()
        &&& after.handed() == before.handed()
        &&& after.total() == before.total()
    } else {
        let data = before.held() + buf;
        let whole = parts::whole_parts(data, before.part_size());
        &&& are_uring_parts(out, before, before.handed(), whole)
        &&& after.held() == parts::remainder(data, before.part_size())
        &&& after.handed() == before.handed() + out.len()
        &&& after.total() == before.total() + buf.len()
    }
}

/// The parts of an object from `first` on, with their bytes.
pub open spec fn are_uring_parts(
    out: Seq<UringPart>,
    tee: IoUringCacheTee,
    first: int,
    data: Seq<Seq<u8>>,
) -> bool {
    &&& out.len() == data.len()
    &&& forall|i: int|
        0 <= i < out.len() ==> is_uring_part(#[trigger] out[i], tee, first + i, data[i])
}

/// `after` is `before` when its bytes are all in, with `tail` handed out as the last part.
pub open spec fn has_flushed(
    before: IoUringCacheTee,
    after: IoUringCacheTee,
    tail: Option<UringPart>,
) -> bool {
    &&& same_target(before, after)
    &&& after.is_poisoned() == before.is_poisoned()
    &&& after.is_sealed()
    &&& after.written() == before.written()
    &&& after.total() == before.total()
    &&& tail is Some <==> !before.is_poisoned() && before.held().len() > 0
    &&& tail matches Some(part) ==> is_uring_part(part, before, before.handed(), before.held())
        && after.held() == Seq::<u8>::empty() && after.handed() == before.handed() + 1
    &&& tail is None ==> after.held() == before.held() && after.handed() == before.handed()
}

/// `after` is `before` when the results of some writes were recorded.
pub open spec fn has_recorded(before: IoUringCacheTee, after: IoUringCacheTee) -> bool {
    &&& same_target(before, after)
    &&& after.is_sealed() == before.is_sealed()
    &&& after.held() == before.held()
    &&& after.handed() == before.handed()
    &&& after.total() == before.total()
}

/// A fresh tee takes in `bufs` one after the other and no write fails. It is `tees[i]` before
/// buffer `i`, for which it hands out `out[i]`, and `between[i]` before the results of their
/// writes.
pub open spec fn is_tee_run(
    tees: Seq<IoUringCacheTee>,
    between: Seq<IoUringCacheTee>,
    bufs: Seq<Seq<u8>>,
    out: Seq<Seq<UringPart>>,
) -> bool {
    &&& tees.len() == bufs.len() + 1
    &&& between.len() == bufs.len()
    &&& out.len() == bufs.len()
    &&& tees[0].held() == Seq::<u8>::empty()
    &&& tees[0].total() == 0
    &&& tees[0].handed() == 0
    &&& forall|i: int| 0 <= i < tees.len() ==> !(#[trigger] tees[i]).is_poisoned()
    &&& forall|i: int|
        #![trigger out[i]]
        0 <= i < bufs.len() ==> has_extended(tees[i], between[i], bufs[i], out[i])
            && has_recorded(between[i], tees[i + 1])
}

impl IoUringCacheTee {
    /// The root folder of the cache.
    pub closed spec fn root(self) -> Seq<char> {
        self.root_folder@
    }

    /// The object.
    pub closed spec fn object(self) -> Seq<char> {
        self.location@
    }

    pub closed spec fn part_size(self) -> int {
        self.part_size as int
    }

    /// The number of the tee.
    pub closed spec fn id(self) -> int {
        self.tee_id as int
    }

    /// The bytes of the part that is being filled.
    pub closed spec fn held(self) -> Seq<u8> {
        self.splitter.held()
    }

    /// How many parts were handed out.
    pub closed spec fn handed(self) -> int {
        self.splitter.next_part() + if self.tail_out {
            1int
        } else {
            0int
        }
    }

    /// Whether the bytes are all in.
    pub closed spec fn is_sealed(self) -> bool {
        self.sealed
    }

    /// How many bytes have come in.
    pub closed spec fn total(self) -> int {
        self.splitter.total()
    }

    /// The files that were written, with their places.
    pub closed spec fn written(self) -> Seq<(Seq<char>, Seq<char>)> {
        tee::pairs(self.pending_renames@)
    }

    /// Whether a write has failed.
    pub closed spec fn is_poisoned(self) -> bool {
        self.poisoned
    }

    /// What was written are the first of the parts that were handed out, in order, each under
    /// its temporary name beside its place.
    pub closed spec fn wf(self) -> bool {
        &&& self.part_size > 0
        &&& self.splitter.part_size() == self.part_size
        &&& self.tail_out ==> self.sealed
        &&& self.pending_renames@.len() <= self.handed()
        &&& forall|i: int|
            0 <= i < self.pending_renames@.len() ==> (#[trigger] tee::pairs(
                self.pending_renames@,
            )[i]) == part_pair(self, i)
    }

    /// What was written are the first of the parts that were handed out, in order.
    pub proof fn lemma_written_are_parts(self)
        requires
            self.wf(),
        ensures
            self.written().len() <= self.handed(),
            forall|i: int|
                0 <= i < self.written().len() ==> #[trigger] self.written()[i] == part_pair(
                    self,
                    i,
                ),
    {
    }

    /// A tee for one object.
    pub fn new(root_folder: String, location: Path, part_size: usize, tee_id: u64) -> (r:
        IoUringCacheTee)
        requires
            part_size > 0,
        ensures
            r.wf(),
            r.root() == root_folder@,
            r.object() == location@,
            r.part_size() == part_size,
            r.id() == tee_id,
            r.held() == Seq::<u8>::empty(),
            r.handed() == 0,
            r.total() == 0,
            r.written() == Seq::<(Seq<char>, Seq<char>)>::empty(),
            !r.is_sealed(),
            !r.is_poisoned(),
    {
        let r = IoUringCacheTee {
            root_folder,
            location,
            part_size,
            tee_id,
            splitter: PartSplitter::new(part_size, 0),
            pending_renames: Vec::new(),
            sealed: false,
            tail_out: false,
            poisoned: false,
        };
        assert(r.written() =~= Seq::<(Seq<char>, Seq<char>)>::empty());
        r
    }

    fn part_paths(&self, part_number: PartID) -> (r: (String, String))
        ensures
            (r.0@, r.1@) == part_pair(*self, part_number as int),
    {
        let place = layout::make_part_path(
            self.root_folder.as_str(),
            &self.location,
            part_number,
            self.part_size,
        );
        let mut tmp_path = place.clone();
        tmp_path.append("._tee");
        tmp_path.append(text::decimal_text(self.tee_id).as_str());
        tmp_path.append("-");
        tmp_path.append(text::decimal_text(part_number as u64).as_str());
        (tmp_path, place)
    }

    fn part_to_write(&self, part_number: PartID, bytes: Bytes) -> (r: UringPart)
        ensures
            is_uring_part(r, *self, part_number as int, buffers::bytes_contents(bytes)),
    {
        let (tmp_path, place) = self.part_paths(part_number);
        UringPart { tmp_path, place, bytes }
    }

    /// Takes in bytes and hands out the parts that they fill, in order. A poisoned tee drops
    /// them.
    pub fn extend(&mut self, buf: &[u8]) -> (r: Vec<UringPart>)
        requires
            old(self).wf(),
            old(self).held().len() + buf@.len() <= isize::MAX,
            old(self).total() + buf@.len() <= u64::MAX,
            old(self).handed() + (old(self).held() + buf@).len() as int / old(self).part_size()
                <= usize::MAX,
            !old(self).is_sealed(),
        ensures
            final(self).wf(),
            has_extended(*old(self), *final(self), buf@, r@),
    {
        let mut out: Vec<UringPart> = Vec::new();
        if self.poisoned {
            return out;
        }
        let ghost before = *self;
        let ghost first = before.handed();
        let ghost whole = parts::whole_parts(before.held() + buf@, before.part_size());
        let filled = self.splitter.push(buf);
        let ghost after = *self;
        let mut i: usize = 0;
        while i < filled.len()
            invariant
                *self == after,
                same_target(before, after),
                i <= filled@.len(),
                parts::are_numbered_parts(filled@, first, whole),
                out@.len() == i,
                forall|k: int|
                    0 <= k < i ==> is_uring_part(#[trigger] out@[k], before, first + k, whole[k]),
            decreases filled@.len() - i,
        {
            let part_number: PartID = filled[i].0;
            let bytes = filled[i].1.clone();
            assert(filled@[i as int].0 == first + i);
            let part = self.part_to_write(part_number, bytes);
            out.push(part);
            i = i + 1;
        }
        out
    }

    /// Ends the stream: what is held goes out as the last part, unless a write has failed.
    pub fn flush(&mut self) -> (r: Option<UringPart>)
        requires
            old(self).wf(),
            !old(self).is_sealed(),
        ensures
            final(self).wf(),
            has_flushed(*old(self), *final(self), r),
    {
        let ghost before = *self;
        self.sealed = true;
        if self.poisoned {
            return None;
        }
        match self.splitter.flush() {
            Some((part_number, bytes)) => {
                self.tail_out = true;
                Some(self.part_to_write(part_number, bytes))
            },
            None => {
                assert(before.held() =~= self.held());
                None
            },
        }
    }

    /// Takes note of the result of the next write; the parts are written in the order in which
    /// they were handed out. A write that failed poisons the tee.
    pub fn record_write(&mut self, done: bool)
        requires
            old(self).wf(),
            old(self).written().len() < old(self).handed(),
        ensures
            final(self).wf(),
            has_recorded(*old(self), *final(self)),
            done ==> final(self).written() == old(self).written().push(
                part_pair(*old(self), old(self).written().len() as int),
            ) && final(self).is_poisoned() == old(self).is_poisoned(),
            !done ==> final(self).written() == old(self).written() && final(self).is_poisoned(),
    {
        let ghost before = self.pending_renames@;
        if done {
            let part_number: PartID = self.pending_renames.len();
            let (tmp_path, place) = self.part_paths(part_number);
            let ghost pair = (tmp_path@, place@);
            self.pending_renames.push((tmp_path, place));
            proof {
                assert(tee::pairs(self.pending_renames@) =~= tee::pairs(before).push(pair));
                assert forall|i: int| 0 <= i < self.pending_renames@.len() implies (
                #[trigger] tee::pairs(self.pending_renames@)[i]) == part_pair(*self, i) by {
                    if i < before.len() {
                        assert(tee::pairs(before)[i] == part_pair(*old(self), i));
                    }
                }
            }
        } else {
            self.poisoned = true;
        }
    }

    /// Whether a write has failed.
    pub fn poisoned(&self) -> (r: bool)
        ensures
            r == self.is_poisoned(),
    {
        self.poisoned
    }

    /// The temporary name of the head, and its place.
    pub fn head_paths(&self) -> (r: (String, String))
        ensures
            (r.0@, r.1@) == head_pair(*self),
    {
        let place = layout::make_head_path(self.root_folder.as_str(), &self.location);
        let mut tmp_path = place.clone();
        tmp_path.append("._tee");
        tmp_path.append(text::decimal_text(self.tee_id).as_str());
        tmp_path.append("-head");
        (tmp_path, place)
    }

    /// Ends the tee once the result of every write is recorded, or one has failed. If every
    /// part and the head are on disk, they are renamed in order, the head last; else what was
    /// written is deleted.
    pub fn finish(self, head_written: bool) -> (r: TeeOutcome)
        requires
            self.wf(),
            self.is_poisoned() || self.written().len() == self.handed(),
        ensures
            is_outcome(self, head_written, r),
    {
        let (head_tmp, head_place) = self.head_paths();
        let IoUringCacheTee { pending_renames, poisoned, .. } = self;
        let ghost before = pending_renames@;
        if poisoned {
            return TeeOutcome::CleanUp(tee::tmp_names(&pending_renames));
        }
        let ghost pair = (head_tmp@, head_place@);
        let mut files = pending_renames;
        files.push((head_tmp, head_place));
        assert(tee::pairs(files@) =~= tee::pairs(before).push(pair));
        if head_written {
            TeeOutcome::Rename(files)
        } else {
            TeeOutcome::CleanUp(tee::tmp_names(&files))
        }
    }
}

proof fn lemma_tee_run(
    tees: Seq<IoUringCacheTee>,
    between: Seq<IoUringCacheTee>,
    bufs: Seq<Seq<u8>>,
    out: Seq<Seq<UringPart>>,
)
    requires
        is_tee_run(tees, between, bufs, out),
    ensures
        ({
            let (whole, held) = parts::split_stream(bufs, tees[0].part_size());
            &&& are_uring_parts(out.flatten(), tees[0], 0, whole)
            &&& tees.last().held() == held
            &&& tees.last().handed() == whole.len()
            &&& tees.last().total() == bufs.flatten().len()
            &&& same_target(tees[0], tees.last())
        }),
    decreases bufs.len(),
{
    let size = tees[0].part_size();
    if bufs.len() == 0 {
        assert(bufs =~= Seq::<Seq<u8>>::empty());
        assert(out =~= Seq::<Seq<UringPart>>::empty());
        assert(bufs.flatten() =~= Seq::<u8>::empty());
        assert(out.flatten() =~= Seq::<UringPart>::empty());
        assert(tees.last() == tees[0]);
    } else {
        let n = bufs.len() - 1;
        let earlier = tees.drop_last();
        assert forall|i: int|
            #![trigger out.drop_last()[i]]
            0 <= i < n implies has_extended(
            earlier[i],
            between.drop_last()[i],
            bufs.drop_last()[i],
            out.drop_last()[i],
        ) && has_recorded(between.drop_last()[i], earlier[i + 1]) by {
            assert(out[i] == out.drop_last()[i]);
        }
        lemma_tee_run(earlier, between.drop_last(), bufs.drop_last(), out.drop_last());
        let last = out[n];
        assert(has_extended(tees[n], between[n], bufs[n], last));
        assert(has_recorded(between[n], tees[n + 1]));
        assert(earlier.last() == tees[n]);
        assert(!tees[n].is_poisoned());
        assert(bufs =~= bufs.drop_last().push(bufs[n]));
        assert(out =~= out.drop_last().push(out[n]));
        bufs.drop_last().lemma_flatten_push(bufs[n]);
        out.drop_last().lemma_flatten_push(out[n]);
        let given = out.drop_last().flatten();
        let all = given + out[n];
        let (whole, held) = parts::split_stream(bufs.drop_last(), size);
        let next = parts::whole_parts(held + bufs[n], size);
        assert forall|i: int| 0 <= i < all.len() implies is_uring_part(
            #[trigger] all[i],
            tees[0],
            i,
            (whole + next)[i],
        ) by {
            if i < given.len() {
                assert(all[i] == given[i]);
                assert(is_uring_part(given[i], tees[0], 0 + i, whole[i]));
            } else {
                let k = i - given.len();
                assert(all[i] == out[n][k]);
                assert(is_uring_part(out[n][k], tees[n], tees[n].handed() + k, next[k]));
            }
        }
    }
}

/// A tee that commits puts the object into the cache. However its bytes came in, the files
/// that are renamed are one for each part of the object, in order and under the place of that
/// part, each written with the bytes of that part, and then the head. The size that the tee
/// knows is that of what came in. `written` are all the parts that were handed out, in order.
pub proof fn lemma_commit_saves_object(
    tees: Seq<IoUringCacheTee>,
    between: Seq<IoUringCacheTee>,
    bufs: Seq<Seq<u8>>,
    out: Seq<Seq<UringPart>>,
    flushed: IoUringCacheTee,
    tail: Option<UringPart>,
    ready: IoUringCacheTee,
    written: Seq<UringPart>,
    files: Seq<(Seq<char>, Seq<char>)>,
)
    requires
        is_tee_run(tees, between, bufs, out),
        tees[0].part_size() > 0,
        has_flushed(tees.last(), flushed, tail),
        has_recorded(flushed, ready),
        ready.wf(),
        written == (if tail is Some {
            out.flatten().push(tail->0)
        } else {
            out.flatten()
        }),
        ready.written().len() == ready.handed(),
        files == ready.written().push(head_pair(ready)),
    ensures
        ({
            let data = bufs.flatten();
            let part_size = tees[0].part_size();
            let count = parts::all_parts(data, part_size).len() as int;
            &&& written.len() == count
            &&& files.len() == count + 1
            &&& forall|i: int|
                #![trigger files[i]]
                #![trigger written[i]]
                0 <= i < count ==> {
                    &&& buffers::bytes_contents(written[i].bytes) == parts::part_of(
                        data,
                        i,
                        part_size,
                    )
                    &&& files[i].0 == written[i].tmp_path@
                    &&& files[i].1 == layout::part_path(
                        tees[0].root(),
                        tees[0].object(),
                        i,
                        part_size,
                    )
                }
            &&& files[count].1 == layout::head_path(tees[0].root(), tees[0].object())
            &&& ready.total() == data.len()
            &&& ready.is_sealed()
        }),
{
    let size = tees[0].part_size();
    let data = bufs.flatten();
    lemma_tee_run(tees, between, bufs, out);
    parts::lemma_stream_parts(bufs, size);
    ready.lemma_written_are_parts();
    assert(!tees.last().is_poisoned());
    let given = out.flatten();
    let count = parts::all_parts(data, size).len() as int;
    assert(written.len() == count);
    assert(files[count] == head_pair(ready));
    assert forall|i: int|
        #![trigger files[i]]
        #![trigger written[i]]
        0 <= i < count implies buffers::bytes_contents(written[i].bytes) == parts::part_of(
        data,
        i,
        size,
    ) && files[i].0 == written[i].tmp_path@ && files[i].1 == layout::part_path(
        tees[0].root(),
        tees[0].object(),
        i,
        size,
    ) by {
        assert(parts::all_parts(data, size)[i] == parts::part_of(data, i, size));
        assert(ready.written()[i] == part_pair(ready, i));
        assert(files[i] == ready.written()[i]);
        if i < given.len() {
            assert(written[i] == given[i]);
            assert(is_uring_part(
                given[i],
                tees[0],
                0 + i,
                parts::split_stream(bufs, size).0[i],
            ));
        }
    }
}

/// Every worker has its share: hashes that follow each other go to the workers in turn, the
/// first to the first worker, and round again behind the last.
pub proof fn lemma_workers_in_turn(hash: u64, workers: usize)
    requires
        workers > 0,
    ensures
        worker_of(hash, workers) < workers,
        hash < workers ==> worker_of(hash, workers) == hash,
        hash + workers <= u64::MAX && hash + workers <= usize::MAX ==> worker_of(
            (hash + workers) as u64,
            workers,
        ) == worker_of(hash, workers),
{
    let h = hash as usize as int;
    let n = workers as int;
    assert(0 <= h % n < n) by (nonlinear_arith)
        requires
            n > 0,
    ;
    if hash < workers {
        vstd::arithmetic::div_mod::lemma_small_mod(hash as nat, workers as nat);
    }
    if hash + workers <= u64::MAX && hash + workers <= usize::MAX {
        vstd::arithmetic::div_mod::lemma_mod_add_multiples_vanish(h, n);
        assert((h + n) % n == h % n) by (nonlinear_arith)
            requires
                (n + h) % n == h % n,
        ;
    }
}

/// The workers go through the list of processors in turn: the first worker has the first, and
/// a worker as many places behind another as the list is long has the same.
pub proof fn lemma_cpus_in_turn(
    cpus: Seq<usize>,
    worker: int,
    r: Option<usize>,
    next: Option<usize>,
)
    requires
        worker >= 0,
        is_cpu_of_worker(cpus, worker, r),
        is_cpu_of_worker(cpus, worker + cpus.len(), next),
    ensures
        r is None <==> cpus.len() == 0,
        next == r,
        worker < cpus.len() ==> r == Some(cpus[worker]),
{
    if cpus.len() > 0 {
        let n = cpus.len() as int;
        vstd::arithmetic::div_mod::lemma_mod_add_multiples_vanish(worker, n);
        assert((worker + n) % n == worker % n) by (nonlinear_arith)
            requires
                (n + worker) % n == worker % n,
        ;
        if worker < n {
            vstd::arithmetic::div_mod::lemma_small_mod(worker as nat, n as nat);
        }
    }
}

/// `r` is `s` from `i` on, and all that stands around it in `s` is white space.
pub open spec fn is_cut_at(r: Seq<char>, s: Seq<char>, i: int) -> bool {
    &&& 0 <= i && i + r.len() <= s.len()
    &&& s.subrange(i, i + r.len()) == r
    &&& forall|k: int|
        0 <= k < i || i + r.len() <= k < s.len() ==> is_white_space(#[trigger] s[k])
}

proof fn lemma_cut_behind(r: Seq<char>, s: Seq<char>, i: int)
    requires
        s.len() > 0,
        is_white_space(s[0]),
        is_cut_at(r, s.skip(1), i),
    ensures
        is_cut_at(r, s, i + 1),
{
    let rest = s.skip(1);
    assert(s.subrange(i + 1, i + 1 + r.len()) =~= rest.subrange(i, i + r.len()));
    assert forall|k: int|
        0 <= k < i + 1 || i + 1 + r.len() <= k < s.len() implies is_white_space(#[trigger] s[k]) by {
        if k > 0 {
            assert(is_white_space(rest[k - 1]));
        }
    }
}

proof fn lemma_cut_before(r: Seq<char>, s: Seq<char>, i: int)
    requires
        s.len() > 0,
        is_white_space(s.last()),
        is_cut_at(r, s.drop_last(), i),
    ensures
        is_cut_at(r, s, i),
{
    let rest = s.drop_last();
    assert(s.subrange(i, i + r.len()) =~= rest.subrange(i, i + r.len()));
    assert forall|k: int|
        0 <= k < i || i + r.len() <= k < s.len() implies is_white_space(#[trigger] s[k]) by {
        if k < rest.len() {
            assert(is_white_space(rest[k]));
        }
    }
}

/// Trimming takes off white space at both ends and nothing else, and leaves none there.
pub proof fn lemma_trimmed(s: Seq<char>)
    ensures
        trimmed(s).len() > 0 ==> !is_white_space(trimmed(s)[0]) && !is_white_space(
            trimmed(s).last(),
        ),
        exists|i: int| #[trigger] is_cut_at(trimmed(s), s, i),
    decreases s.len(),
{
    if s.len() > 0 && is_white_space(s[0]) {
        lemma_trimmed(s.skip(1));
        let i = choose|i: int| #[trigger] is_cut_at(trimmed(s.skip(1)), s.skip(1), i);
        lemma_cut_behind(trimmed(s), s, i);
    } else if s.len() > 0 && is_white_space(s.last()) {
        lemma_trimmed(s.drop_last());
        let i = choose|i: int| #[trigger] is_cut_at(trimmed(s.drop_last()), s.drop_last(), i);
        lemma_cut_before(trimmed(s), s, i);
    } else {
        assert(s.subrange(0, s.len() as int) =~= s);
        assert(trimmed(s) == s);
        assert(is_cut_at(trimmed(s), s, 0));
    }
}

/// A comma parts a list in two: its pieces are those of what stands before and then those of
/// what stands behind. A list without a comma is one piece.
pub proof fn lemma_comma_parts_list(a: Seq<char>, b: Seq<char>)
    ensures
        comma_pieces(a + seq![','] + b) == comma_pieces(a) + comma_pieces(b),
        !layout::has_char(a, ',') ==> comma_pieces(a) == seq![a],
    decreases a.len() + b.len(),
{
    let whole = a + seq![','] + b;
    lemma_comma_piece_count(a);
    lemma_comma_piece_count(b);
    if b.len() == 0 {
        assert(whole.drop_last() =~= a);
        assert(whole.last() == ',');
        assert(comma_pieces(whole) =~= comma_pieces(a) + comma_pieces(b));
    } else {
        lemma_comma_parts_list(a, b.drop_last());
        let rest = b.drop_last();
        lemma_comma_piece_count(rest);
        assert(whole.drop_last() =~= a + seq![','] + rest);
        assert(whole.last() == b.last());
        assert(comma_pieces(whole) =~= comma_pieces(a) + comma_pieces(b));
    }
    if !layout::has_char(a, ',') {
        lemma_one_piece(a);
    }
}

proof fn lemma_comma_piece_count(s: Seq<char>)
    ensures
        comma_pieces(s).len() > 0,
    decreases s.len(),
{
    if s.len() > 0 {
        lemma_comma_piece_count(s.drop_last());
    }
}

proof fn lemma_one_piece(s: Seq<char>)
    requires
        !layout::has_char(s, ','),
    ensures
        comma_pieces(s) == seq![s],
    decreases s.len(),
{
    if s.len() == 0 {
        assert(s =~= Seq::<char>::empty());
        assert(comma_pieces(s) =~= seq![s]);
    } else {
        let rest = s.drop_last();
        assert(s[s.len() - 1] != ',');
        if layout::has_char(rest, ',') {
            let i = choose|i: int| 0 <= i < rest.len() && #[trigger] rest[i] == ',';
            assert(s[i] == ',');
        }
        lemma_one_piece(rest);
        assert(rest.push(s.last()) =~= s);
        assert(comma_pieces(s) =~= seq![s]);
    }
}

/// The numbers of a list are those of its first pieces, and then those of the rest; one piece
/// stands for the number that it spells, if it spells one.
pub proof fn lemma_piece_numbers_in_order(a: Seq<Seq<char>>, b: Seq<Seq<char>>, piece: Seq<char>)
    ensures
        piece_numbers(a + b) == piece_numbers(a) + piece_numbers(b),
        piece_numbers(seq![piece]) == (match text::parsed_usize(trimmed(piece)) {
            Some(n) => seq![n],
            None => Seq::empty(),
        }),
    decreases b.len(),
{
    reveal_with_fuel(piece_numbers, 2);
    assert(seq![piece].drop_last() =~= Seq::<Seq<char>>::empty());
    assert(seq![piece].last() == piece);
    assert(piece_numbers(seq![piece]) =~= (match text::parsed_usize(trimmed(piece)) {
        Some(n) => seq![n],
        None => Seq::empty(),
    }));
    if b.len() == 0 {
        assert(a + b =~= a);
        assert(piece_numbers(a) + piece_numbers(b) =~= piece_numbers(a));
    } else {
        lemma_piece_numbers_in_order(a, b.drop_last(), piece);
        assert((a + b).drop_last() =~= a + b.drop_last());
        assert((a + b).last() == b.last());
        assert(piece_numbers(a + b) =~= piece_numbers(a) + piece_numbers(b));
    }
}

/// A folder lies under itself, and so does whatever follows it behind a slash; a name that
/// merely begins with the same letters does not.
pub proof fn lemma_under_folder(folder: Seq<char>, rest: Seq<char>)
    requires
        folder.len() > 0,
        folder.last() != '/',
    ensures
        is_under(folder, folder),
        is_under(folder + seq!['/'] + rest, folder),
        rest.len() > 0 && rest[0] != '/' ==> !is_under(folder + rest, folder),
        rest.len() < folder.len() ==> !is_under(rest, folder),
{
    let inside = layout::deeper(folder, Seq::empty());
    assert(inside =~= folder.push('/'));
    let below = folder + seq!['/'] + rest;
    assert(below.take(inside.len() as int) =~= inside);
    if rest.len() > 0 && rest[0] != '/' {
        let beside = folder + rest;
        assert(beside[folder.len() as int] == rest[0]);
        if layout::begins_with(beside, inside) {
            assert(beside.take(inside.len() as int)[folder.len() as int] == '/');
        }
    }
}

/// A worker keeps what was opened last under a path and looks at it first when the path is
/// asked for again; a stale file is dropped. What is kept for other paths is not touched.
pub proof fn lemma_fd_step(
    before: Map<Seq<char>, u64>,
    after: Map<Seq<char>, u64>,
    path: Seq<char>,
    event: HandleEvent,
    r: HandleStep,
    other: Seq<char>,
)
    requires
        is_fd_step(before, after, path, event, r),
        other != path,
    ensures
        after.contains_key(other) <==> before.contains_key(other),
        before.contains_key(other) ==> after[other] == before[other],
        event matches HandleEvent::Opened { handle } ==> after.contains_key(path) && after[path]
            == handle && r == (HandleStep::Use { handle }),
        event matches HandleEvent::Checked { handle, linked } ==> {
            &&& linked ==> r == (HandleStep::Use { handle }) && after == before
            &&& !linked ==> r == HandleStep::Open && !after.contains_key(path)
        },
        event is Begin ==> {
            &&& after == before
            &&& before.contains_key(path) ==> r == (HandleStep::Check { handle: before[path] })
            &&& !before.contains_key(path) ==> r == HandleStep::Open
        },
{
}

/// A tee commits as a whole or not at all: if every part and the head are on disk all of them
/// are renamed, the head last, and else what was written is deleted.
pub proof fn lemma_tee_ends_whole(
    tee: IoUringCacheTee,
    head_written: bool,
    r: TeeOutcome,
    i: int,
)
    requires
        is_outcome(tee, head_written, r),
        0 <= i < tee.written().len(),
    ensures
        r is Rename <==> head_written && !tee.is_poisoned(),
        r matches TeeOutcome::Rename(files) ==> {
            &&& files@.len() == tee.written().len() + 1
            &&& files@[i].0@ == tee.written()[i].0 && files@[i].1@ == tee.written()[i].1
            &&& i < tee.handed() ==> (files@[i].0@, files@[i].1@) == part_pair(tee, i)
            &&& files@.last().0@ == head_pair(tee).0 && files@.last().1@ == head_pair(tee).1
        },
        r matches TeeOutcome::CleanUp(files) ==> {
            &&& files@.len() == tee.written().len() + if tee.is_poisoned() {
                0int
            } else {
                1int
            }
            &&& files@[i]@ == tee.written()[i].0
            &&& !tee.is_poisoned() ==> files@.last()@ == head_pair(tee).0
        },
{
    match r {
        TeeOutcome::Rename(files) => {
            let n = tee.written().len() as int;
            let all = tee.written().push(head_pair(tee));
            assert(tee::pairs(files@).len() == n + 1);
            assert(tee::pairs(files@)[i] == all[i]);
            assert(tee::pairs(files@)[n] == all[n]);
        },
        TeeOutcome::CleanUp(files) => {
            let n = files@.len() - 1;
            assert(files@[i]@ == tee.written()[i].0);
            assert(files@[n] == files@.last());
        },
    }
}

/// A tee with a failed write takes in nothing more, hands out nothing more, and renames
/// nothing.
pub proof fn lemma_failed_tee_stops(
    before: IoUringCacheTee,
    after: IoUringCacheTee,
    buf: Seq<u8>,
    out: Seq<UringPart>,
    flushed: IoUringCacheTee,
    tail: Option<UringPart>,
    head_written: bool,
    r: TeeOutcome,
)
    requires
        before.is_poisoned(),
        has_extended(before, after, buf, out),
        has_flushed(after, flushed, tail),
        is_outcome(flushed, head_written, r),
    ensures
        out.len() == 0,
        tail is None,
        after.total() == before.total(),
        after.held() == before.held(),
        after.handed() == before.handed(),
        after.is_sealed() == before.is_sealed(),
        flushed.is_sealed(),
        flushed.total() == before.total(),
        flushed.written() == before.written(),
        r is CleanUp,
{
}

/// Two tees of one object write under different temporary names.
pub proof fn lemma_tees_write_apart(place: Seq<char>, a: int, b: int, m: int, n: int)
    requires
        a >= 0,
        b >= 0,
        a != b,
    ensures
        uring_part_tmp(place, a, m) != uring_part_tmp(place, b, n),
        uring_head_tmp(place, a) != uring_head_tmp(place, b),
        uring_part_tmp(place, a, m).take(place.len() as int) == place,
        uring_head_tmp(place, a).take(place.len() as int) == place,
        uring_part_tmp(place, a, m) != place,
        uring_head_tmp(place, a) != place,
{
    reveal_strlit("._tee");
    reveal_strlit("-");
    reveal_strlit("-head");
    let x = text::decimal(a as nat);
    let y = text::decimal(b as nat);
    let start = place.len() as int + 5;
    assert(uring_part_tmp(place, a, m).take(place.len() as int) =~= place);
    assert(uring_head_tmp(place, a).take(place.len() as int) =~= place);
    assert(uring_part_tmp(place, a, m) =~= place + "._tee"@ + (x + ("-"@ + text::decimal(
        m as nat,
    ))));
    assert(uring_part_tmp(place, b, n) =~= place + "._tee"@ + (y + ("-"@ + text::decimal(
        n as nat,
    ))));
    assert(uring_head_tmp(place, a) =~= place + "._tee"@ + (x + "-head"@));
    assert(uring_head_tmp(place, b) =~= place + "._tee"@ + (y + "-head"@));
    lemma_numbers_apart(place + "._tee"@, a, b, "-"@ + text::decimal(m as nat), "-"@ + text::decimal(
        n as nat,
    ));
    lemma_numbers_apart(place + "._tee"@, a, b, "-head"@, "-head"@);
}

proof fn lemma_numbers_apart(front: Seq<char>, a: int, b: int, u: Seq<char>, v: Seq<char>)
    requires
        a >= 0,
        b >= 0,
        a != b,
        u.len() > 0,
        v.len() > 0,
        u[0] == '-',
        v[0] == '-',
    ensures
        front + (text::decimal(a as nat) + u) != front + (text::decimal(b as nat) + v),
{
    let x = text::decimal(a as nat);
    let y = text::decimal(b as nat);
    let p = front + (x + u);
    let q = front + (y + v);
    let n = front.len() as int;
    text::lemma_decimal_value(a as nat);
    text::lemma_decimal_value(b as nat);
    if p == q {
        if x.len() < y.len() {
            assert(p[n + x.len()] == '-');
            assert(q[n + x.len()] == y[x.len() as int]);
            assert(text::is_digit(y[x.len() as int]));
        } else if y.len() < x.len() {
            assert(q[n + y.len()] == '-');
            assert(p[n + y.len()] == x[y.len() as int]);
            assert(text::is_digit(x[y.len() as int]));
        } else {
            assert(p.subrange(n, n + x.len()) =~= x);
            assert(q.subrange(n, n + y.len()) =~= y);
            text::lemma_decimal_injective(a as nat, b as nat);
        }
    }
}

/// What is dropped under a folder is every file that is kept there, each once, and no other.
pub proof fn lemma_dropped_under_folder(
    paths: Seq<Seq<char>>,
    fds: Seq<u64>,
    kept: Map<Seq<char>, u64>,
    folder: Seq<char>,
    path: Seq<char>,
    i: int,
    j: int,
)
    requires
        are_kept_under(paths, fds, kept, folder),
    ensures
        0 <= i < fds.len() && 0 <= j < fds.len() && i != j ==> paths[i] != paths[j],
        kept.contains_key(path) && is_under(path, folder) ==> fds.contains(kept[path]),
        0 <= i < fds.len() ==> paths.len() == fds.len() && kept.contains_key(paths[i]) && is_under(
            paths[i],
            folder,
        ) && fds[i] == kept[paths[i]],
{
    if kept.contains_key(path) && is_under(path, folder) {
        assert(paths.contains(path));
        let k = choose|k: int| 0 <= k < paths.len() && paths[k] == path;
        assert(fds[k] == kept[path]);
    }
    if 0 <= i < fds.len() {
        assert(paths.contains(paths[i]));
    }
}

} // verus!
