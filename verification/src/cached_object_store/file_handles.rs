//! Which open files are kept for reuse. A handle is a number that stands for an open
//! file; the files themselves are held by whoever opens them.

use vstd::prelude::*;
use vstd::string::*;

verus! {

/// `scc::HashMap`: a concurrent hash map.
#[verifier::external_type_specification]
#[verifier::external_body]
#[verifier::reject_recursive_types(K)]
#[verifier::reject_recursive_types(V)]
#[verifier::reject_recursive_types(H)]
pub struct ExSccHashMap<K, V, H: std::hash::BuildHasher>(scc::HashMap<K, V, H>);

/// The handles that a map holds, by path.
pub uninterp spec fn handles(map: scc::HashMap<String, u64>) -> Map<Seq<char>, u64>;

/// `scc::HashMap::new`: an empty map.
#[verifier::external_body]
fn no_handles() -> (r: scc::HashMap<String, u64>)
    ensures
        handles(r).dom() == Set::<Seq<char>>::empty(),
{
    scc::HashMap::new()
}

/// `scc::HashMap::read`: the value under the key, if there is one.
#[verifier::external_body]
fn read_handle(map: &scc::HashMap<String, u64>, path: &str) -> (r: Option<u64>)
    ensures
        r is Some <==> handles(*map).contains_key(path@),
        r matches Some(handle) ==> handle == handles(*map)[path@],
{
    map.read(path, |_, handle| *handle)
}

/// `scc::HashMap::insert`: adds the value, unless the key is taken; a key that is taken
/// keeps its value.
#[verifier::external_body]
fn insert_handle(map: &mut scc::HashMap<String, u64>, path: String, handle: u64) -> (r: bool)
    ensures
        r <==> !handles(*old(map)).contains_key(path@),
        r ==> handles(*final(map)) == handles(*old(map)).insert(path@, handle),
        !r ==> handles(*final(map)) == handles(*old(map)),
{
    map.insert(path, handle).is_ok()
}

/// `scc::HashMap::remove`: takes the key and its value out, if the key is there.
#[verifier::external_body]
fn remove_handle(map: &mut scc::HashMap<String, u64>, path: &str) -> (r: Option<u64>)
    ensures
        r is Some <==> handles(*old(map)).contains_key(path@),
        r matches Some(handle) ==> handle == handles(*old(map))[path@],
        handles(*final(map)) == handles(*old(map)).remove(path@),
{
    map.remove(path).map(|(_, handle)| handle)
}

/// `scc::HashMap::len`: the number of keys. An entry that is moved to a larger array while the
/// count runs may be counted twice; entries are moved only by calls that take the map mutably
/// here, and each is taken out of the old array as it is moved, so that the count is exact.
#[verifier::external_body]
fn count_handles(map: &scc::HashMap<String, u64>) -> (r: usize)
    ensures
        r == handles(*map).len(),
{
    map.len()
}

/// What has happened to a request for an open file.
pub enum HandleEvent {
    /// It has come in.
    Begin,
    /// The file behind a kept handle was looked at: it is still linked, or not.
    Checked { handle: u64, linked: bool },
    /// The file was opened.
    Opened { handle: u64 },
}

/// What to do next for a request for an open file.
#[derive(Clone, Copy, Debug, PartialEq, Eq, Structural)]
pub enum HandleStep {
    /// See whether the file behind this handle is still linked.
    Check { handle: u64 },
    /// Open the file.
    Open,
    /// Use this handle.
    Use { handle: u64 },
}

/// The step that follows an event, and what is kept then. A stale handle is dropped
/// and the file opened anew. When the file was opened twice at once, the handle that
/// came first stays and is used by both.
pub open spec fn handle_step_spec(
    kept: Map<Seq<char>, u64>,
    path: Seq<char>,
    event: HandleEvent,
) -> (Map<Seq<char>, u64>, HandleStep) {
    match event {
        HandleEvent::Begin => (
            kept,
            if kept.contains_key(path) {
                HandleStep::Check { handle: kept[path] }
            } else {
                HandleStep::Open
            },
        ),
        HandleEvent::Checked { handle, linked } => if linked {
            (kept, HandleStep::Use { handle })
        } else {
            (kept.remove(path), HandleStep::Open)
        },
        HandleEvent::Opened { handle } => if kept.contains_key(path) {
            (kept, HandleStep::Use { handle: kept[path] })
        } else {
            (kept.insert(path, handle), HandleStep::Use { handle })
        },
    }
}

/// The handles that are kept. There is no limit on their number.
pub struct FileHandleCache {
    inner: scc::HashMap<String, u64>,
}

impl FileHandleCache {
    /// The handles that are kept, by path.
    pub closed spec fn kept(self) -> Map<Seq<char>, u64> {
        handles(self.inner)
    }

    /// Nothing kept. The bound on the number of handles is not enforced.
    pub fn new(_max_handles: usize) -> (r: FileHandleCache)
        ensures
            r.kept() == Map::<Seq<char>, u64>::empty(),
    {
        let r = FileHandleCache { inner: no_handles() };
        assert(r.kept() =~= Map::<Seq<char>, u64>::empty());
        r
    }

    /// How many handles are kept.
    pub fn len(&self) -> (r: usize)
        ensures
            r == self.kept().len(),
    {
        count_handles(&self.inner)
    }

    /// The next step of a request for an open file after `event`.
    pub fn next_step(&mut self, path: &str, event: HandleEvent) -> (r: HandleStep)
        ensures
            (final(self).kept(), r) == handle_step_spec(old(self).kept(), path@, event),
    {
        match event {
            HandleEvent::Begin => match read_handle(&self.inner, path) {
                Some(handle) => HandleStep::Check { handle },
                None => HandleStep::Open,
            },
            HandleEvent::Checked { handle, linked } => {
                if linked {
                    HandleStep::Use { handle }
                } else {
                    let _ = remove_handle(&mut self.inner, path);
                    HandleStep::Open
                }
            },
            HandleEvent::Opened { handle } => {
                if insert_handle(&mut self.inner, path.to_owned(), handle) {
                    HandleStep::Use { handle }
                } else {
                    match read_handle(&self.inner, path) {
                        Some(winner) => HandleStep::Use { handle: winner },
                        None => HandleStep::Use { handle },
                    }
                }
            },
        }
    }

    /// Drops the handle of a file that was deleted or replaced and returns it.
    pub fn invalidate(&mut self, path: &str) -> (r: Option<u64>)
        ensures
            final(self).kept() == old(self).kept().remove(path@),
            r is Some <==> old(self).kept().contains_key(path@),
            r matches Some(handle) ==> handle == old(self).kept()[path@],
    {
        remove_handle(&mut self.inner, path)
    }
}

/// After a file was replaced, the handle on the old one is never used again: what is
/// used next was opened afterwards.
pub proof fn lemma_invalidated_is_reopened(kept: Map<Seq<char>, u64>, path: Seq<char>, handle: u64)
    ensures
        handle_step_spec(kept.remove(path), path, HandleEvent::Begin).1 == HandleStep::Open,
        handle_step_spec(kept.remove(path), path, (HandleEvent::Opened { handle })).1
            == (HandleStep::Use { handle }),
{
}

/// No request touches what is kept for another path.
pub proof fn lemma_other_paths_are_kept(
    kept: Map<Seq<char>, u64>,
    path: Seq<char>,
    other: Seq<char>,
    event: HandleEvent,
)
    requires
        other != path,
    ensures
        ({
            let after = handle_step_spec(kept, path, event).0;
            &&& after.contains_key(other) <==> kept.contains_key(other)
            &&& kept.contains_key(other) ==> after[other] == kept[other]
        }),
{
}

/// A file that was opened is kept under its path, and the next request looks at the handle that
/// is used now. Of two that were opened at once, both use the first.
pub proof fn lemma_opened_is_kept(kept: Map<Seq<char>, u64>, path: Seq<char>, a: u64, b: u64)
    ensures
        ({
            let (first, step) = handle_step_spec(kept, path, HandleEvent::Opened { handle: a });
            let (second, again) = handle_step_spec(first, path, HandleEvent::Opened { handle: b });
            &&& step is Use
            &&& first.contains_key(path)
            &&& kept.contains_key(path) ==> first[path] == kept[path]
            &&& !kept.contains_key(path) ==> first[path] == a
            &&& step == (HandleStep::Use { handle: first[path] })
            &&& handle_step_spec(first, path, HandleEvent::Begin).1 == (HandleStep::Check {
                handle: first[path],
            })
            &&& again == step
            &&& second == first
        }),
{
}

/// A kept handle is used exactly if its file is still linked; a stale one is dropped, and the
/// file opened anew.
pub proof fn lemma_stale_is_dropped(
    kept: Map<Seq<char>, u64>,
    path: Seq<char>,
    handle: u64,
    linked: bool,
)
    ensures
        ({
            let (after, step) = handle_step_spec(
                kept,
                path,
                HandleEvent::Checked { handle, linked },
            );
            &&& linked ==> step == (HandleStep::Use { handle }) && after == kept
            &&& !linked ==> step == HandleStep::Open && !after.contains_key(path)
        }),
        handle_step_spec(kept, path, HandleEvent::Begin).0 == kept,
        kept.contains_key(path) ==> handle_step_spec(kept, path, HandleEvent::Begin).1 == (
        HandleStep::Check { handle: kept[path] }),
        !kept.contains_key(path) ==> handle_step_spec(kept, path, HandleEvent::Begin).1
            == HandleStep::Open,
{
}

} // verus!
