//! Filters that tell which keys an SST cannot hold, and the prefixes that they index.

use crate::buffers;
use crate::text;
use bytes::Bytes;
use std::collections::HashMap;
use vstd::prelude::*;
use vstd::string::*;

verus! {

/// A named filter policy: how filters are built, encoded and decoded. The name is stored
/// with each SST, so that a reader knows whether it can use the filter.
pub trait FilterPolicy: Send + Sync {
    type Built: Filter;

    type Builder: FilterBuilder<Built = Self::Built>;

    /// What the policy is called. The name encodes what affects compatibility, such as
    /// the prefix extractor, and not what only affects quality.
    fn name(&self) -> &str;

    /// A builder for a new filter. No key has come in yet.
    fn builder(&self) -> (r: Self::Builder)
        ensures
            r.keys() == Set::<Seq<u8>>::empty(),
    ;

    /// The filter that `data` encodes. The caller has made sure that the name matches. What is
    /// read back answers for every key of the filter that was written, though it may answer
    /// for more: filters of different keys may have one encoding.
    fn decode(&self, data: &[u8]) -> (r: Self::Built)
        ensures
            forall|f: Self::Built|
                data@ == #[trigger] f.encoded() ==> f.keys().subset_of(r.keys()) && (f.passes_all()
                    ==> r.passes_all()),
    ;

    /// A guess at the encoded size of a filter for `num_keys` keys.
    fn estimate_size(&self, num_keys: usize) -> usize;
}

/// Takes in the keys of an SST and makes a filter of them.
pub trait FilterBuilder: Send {
    type Built: Filter;

    /// The keys that have come in.
    spec fn keys(&self) -> Set<Seq<u8>>;

    /// Adds a key.
    fn add_key(&mut self, key: &[u8])
        ensures
            final(self).keys() == old(self).keys().insert(key@),
    ;

    /// The filter for the keys so far. Without keys, it lets every query through.
    fn build(&self) -> (r: Self::Built)
        ensures
            r.keys() == self.keys(),
            self.keys() == Set::<Seq<u8>>::empty() ==> r.passes_all(),
    ;
}

/// Answers membership queries.
pub trait Filter: Send + Sync {
    /// The keys that the filter answers for. For one that was built, these are the keys that
    /// came in.
    spec fn keys(&self) -> Set<Seq<u8>>;

    /// The filter lets every query through.
    spec fn passes_all(&self) -> bool;

    /// What the filter is written as.
    spec fn encoded(&self) -> Seq<u8>;

    /// Whether the filter cannot rule the query out. `false` means that no key matches.
    fn might_match(&self, query: &FilterQuery) -> (r: bool)
        ensures
            !r ==> forall|k: Seq<u8>| #[trigger] self.keys().contains(k) ==> !query.matches(k),
            self.passes_all() ==> r,
    ;

    /// Writes the filter behind what the buffer holds.
    fn encode(&self, writer: &mut Vec<u8>)
        ensures
            final(writer)@ == old(writer)@ + self.encoded(),
    ;

    /// The size of the filter's data in bytes.
    fn size(&self) -> usize;
}

/// A membership query.
#[derive(Debug, Clone)]
pub struct FilterQuery {
    /// What is asked for.
    pub kind: FilterQueryKind,
    /// Hints of the caller by name, for filters that know them.
    pub hints: HashMap<String, Bytes>,
}

/// What a query asks for.
#[derive(Debug, Clone, PartialEq, Eq)]
pub enum FilterQueryKind {
    /// One key.
    Point(Bytes),
    /// Any key with this prefix.
    Prefix(Bytes),
}

impl FilterQuery {
    /// `key` is one that the query asks for.
    pub open spec fn matches(&self, key: Seq<u8>) -> bool {
        match self.kind {
            FilterQueryKind::Point(k) => key == buffers::bytes_contents(k),
            FilterQueryKind::Prefix(p) => {
                let prefix = buffers::bytes_contents(p);
                prefix.len() <= key.len() && key.take(prefix.len() as int) == prefix
            },
        }
    }

    /// A query for one key, without hints.
    pub fn point(key: Bytes) -> (r: FilterQuery)
        ensures
            r.kind == FilterQueryKind::Point(key),
            r.hints@ == Map::<String, Bytes>::empty(),
    {
        FilterQuery { kind: FilterQueryKind::Point(key), hints: HashMap::new() }
    }

    /// A query for a prefix, without hints.
    pub fn prefix(prefix: Bytes) -> (r: FilterQuery)
        ensures
            r.kind == FilterQueryKind::Prefix(prefix),
            r.hints@ == Map::<String, Bytes>::empty(),
    {
        FilterQuery { kind: FilterQueryKind::Prefix(prefix), hints: HashMap::new() }
    }

    /// The query with these hints in the place of its own.
    pub fn with_hints(self, hints: HashMap<String, Bytes>) -> (r: FilterQuery)
        ensures
            r.kind == self.kind,
            r.hints == hints,
    {
        FilterQuery { kind: self.kind, hints }
    }
}

/// Takes the prefix out of a key that a filter indexes.
pub trait PrefixExtractor: Send + Sync {
    /// What the extractor is called.
    spec fn name_spec(&self) -> Seq<char>;

    /// `prefix` has the form of what is extracted.
    spec fn is_in_domain(&self, prefix: Seq<u8>) -> bool;

    /// What is extracted from `key`.
    spec fn extracted(&self, key: Seq<u8>) -> Option<Seq<u8>>;

    /// What the extractor is called. Filters built with another extractor must not be
    /// consulted, and the name lets a reader see that.
    fn name(&self) -> (r: &str)
        ensures
            r@ == self.name_spec(),
    ;

    /// Whether the filter may be asked for this prefix. If not, an answer could wrongly rule
    /// keys out.
    fn in_domain(&self, prefix: &[u8]) -> (r: bool)
        ensures
            r == self.is_in_domain(prefix@),
    ;

    /// The prefix of a key, if it has one.
    fn extract<'a>(&self, key: &'a [u8]) -> (r: Option<&'a [u8]>)
        ensures
            r is Some <==> self.extracted(key@) is Some,
            r matches Some(prefix) ==> self.extracted(key@) == Some(prefix@),
            r is Some <==> self.is_in_domain(key@),
            r matches Some(prefix) ==> self.is_in_domain(prefix@),
    ;
}

/// Takes a fixed number of bytes as the prefix. Shorter keys have none.
#[derive(Debug)]
pub struct FixedPrefixExtractor {
    prefix_len: usize,
    name: String,
}

impl FixedPrefixExtractor {
    #[verifier::type_invariant]
    spec fn is_named_by_length(self) -> bool {
        &&& self.prefix_len > 0
        &&& self.name@ == "fixed"@ + text::decimal(self.prefix_len as nat)
    }

    /// How many bytes the prefix has.
    pub closed spec fn len_spec(self) -> int {
        self.prefix_len as int
    }

    /// An extractor for prefixes of `prefix_len` bytes, at least one.
    pub fn new(prefix_len: usize) -> (r: FixedPrefixExtractor)
        requires
            prefix_len > 0,
        ensures
            r.len_spec() == prefix_len,
            r.name_spec() == "fixed"@ + text::decimal(prefix_len as nat),
    {
        let mut name = String::from_str("fixed");
        name.append(text::decimal_text(prefix_len as u64).as_str());
        FixedPrefixExtractor { prefix_len, name }
    }
}

impl PrefixExtractor for FixedPrefixExtractor {
    closed spec fn name_spec(&self) -> Seq<char> {
        self.name@
    }

    open spec fn is_in_domain(&self, prefix: Seq<u8>) -> bool {
        prefix.len() >= self.len_spec()
    }

    open spec fn extracted(&self, key: Seq<u8>) -> Option<Seq<u8>> {
        if key.len() >= self.len_spec() {
            Some(key.take(self.len_spec()))
        } else {
            None
        }
    }

    fn name(&self) -> (r: &str) {
        self.name.as_str()
    }

    fn in_domain(&self, prefix: &[u8]) -> (r: bool) {
        prefix.len() >= self.prefix_len
    }

    fn extract<'a>(&self, key: &'a [u8]) -> (r: Option<&'a [u8]>) {
        if key.len() >= self.prefix_len {
            let r = vstd::slice::slice_subrange(key, 0, self.prefix_len);
            assert(r@ =~= key@.take(self.prefix_len as int));
            Some(r)
        } else {
            None
        }
    }
}

/// A prefix that was extracted is in the domain, begins its key, and is what is extracted
/// from itself: a scan for it may consult the filter.
pub proof fn lemma_extracted_is_in_domain(extractor: FixedPrefixExtractor, key: Seq<u8>)
    requires
        extractor.extracted(key) is Some,
        extractor.len_spec() >= 0,
    ensures
        ({
            let prefix = extractor.extracted(key)->0;
            &&& extractor.is_in_domain(prefix)
            &&& prefix.len() == extractor.len_spec()
            &&& key.take(prefix.len() as int) == prefix
            &&& extractor.extracted(prefix) == Some(prefix)
        }),
{
    let prefix = extractor.extracted(key)->0;
    assert(prefix.take(extractor.len_spec()) =~= prefix);
}

/// Every key of at least as many bytes as the prefix has a prefix, its first bytes, and is in
/// the domain. A shorter key has none, and is not.
pub proof fn lemma_every_long_key_has_prefix(extractor: FixedPrefixExtractor, key: Seq<u8>, n: int)
    requires
        extractor.len_spec() == n,
        n >= 0,
    ensures
        key.len() >= n ==> extractor.is_in_domain(key) && extractor.extracted(key) == Some(
            key.subrange(0, n),
        ),
        key.len() < n ==> !extractor.is_in_domain(key) && extractor.extracted(key) is None,
{
    if key.len() >= n {
        assert(key.take(n) =~= key.subrange(0, n));
    }
}

/// What is extracted from a key stays when the key goes on, so that all keys under a prefix
/// are indexed alike.
pub proof fn lemma_longer_key_has_same_prefix(
    extractor: FixedPrefixExtractor,
    key: Seq<u8>,
    more: Seq<u8>,
)
    requires
        extractor.extracted(key) is Some,
        extractor.len_spec() >= 0,
    ensures
        extractor.extracted(key + more) == extractor.extracted(key),
        extractor.is_in_domain(key + more),
{
    let n = extractor.len_spec();
    assert((key + more).take(n) =~= key.take(n));
}

/// Keys share their extracted prefix exactly if their first bytes agree.
pub proof fn lemma_prefixes_agree(extractor: FixedPrefixExtractor, a: Seq<u8>, b: Seq<u8>, n: int)
    requires
        extractor.len_spec() == n,
        0 <= n <= a.len(),
        n <= b.len(),
    ensures
        extractor.extracted(a) == extractor.extracted(b) <==> (forall|i: int|
            0 <= i < n ==> #[trigger] a[i] == b[i]),
{
    if extractor.extracted(a) == extractor.extracted(b) {
        assert forall|i: int| 0 <= i < n implies #[trigger] a[i] == b[i] by {
            assert(a.take(n)[i] == b.take(n)[i]);
        }
    }
    if forall|i: int| 0 <= i < n ==> #[trigger] a[i] == b[i] {
        assert(a.take(n) =~= b.take(n));
    }
}

/// A query for one key asks for that key alone. A query for a prefix asks for the prefix with
/// anything behind it, and for nothing else.
pub proof fn lemma_query_matches(query: FilterQuery, wanted: Seq<u8>, key: Seq<u8>, more: Seq<u8>)
    requires
        query.kind matches FilterQueryKind::Point(k) ==> buffers::bytes_contents(k) == wanted,
        query.kind matches FilterQueryKind::Prefix(p) ==> buffers::bytes_contents(p) == wanted,
    ensures
        query.kind is Point ==> (query.matches(key) <==> key == wanted),
        query.kind is Prefix ==> query.matches(wanted + more),
        query.kind is Prefix && query.matches(key) ==> key == wanted + key.skip(
            wanted.len() as int,
        ) && key.len() >= wanted.len(),
{
    assert((wanted + more).take(wanted.len() as int) =~= wanted);
    if query.kind is Prefix && query.matches(key) {
        assert(key =~= key.take(wanted.len() as int) + key.skip(wanted.len() as int));
    }
}

} // verus!
