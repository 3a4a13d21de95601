//! Settings of the cache.

use crate::text;
use vstd::prelude::*;
use vstd::string::*;

verus! {

/// A span of time.
#[derive(Clone, Copy, Debug, PartialEq, Eq, Structural)]
pub struct Interval {
    pub secs: u64,
    /// The part of a second on top, in nanoseconds.
    pub nanos: u32,
}

/// Settings of a caching store.
#[derive(Debug, PartialEq, Eq)]
pub struct ObjectStoreCacheOptions {
    /// The folder in which the files of the cache lie. Required.
    pub root_folder: Option<String>,
    /// The limit of the cache in bytes. By default 16 GB on 64-bit systems and all that can
    /// be counted on 32-bit systems.
    pub max_cache_size_bytes: Option<usize>,
    /// The size of a part, a multiple of 1 KB. By default 4 MB.
    pub part_size_bytes: usize,
    /// Whether writes that the policy admits also go to the cache. By default they do not.
    pub cache_puts: bool,
    /// How often the folder is scanned to set the accounting of the evictor right. By
    /// default once an hour. Without an interval it is scanned once, at the start.
    pub scan_interval: Option<Interval>,
    /// How many files to keep open. By default 1000. The bound is not enforced: the cache of
    /// open files has no limit.
    pub max_open_file_handles: usize,
}

/// The same settings, text by its characters.
pub open spec fn same_options(a: ObjectStoreCacheOptions, b: ObjectStoreCacheOptions) -> bool {
    &&& a.root_folder is Some <==> b.root_folder is Some
    &&& a.root_folder matches Some(f) ==> f@ == b.root_folder->0@
    &&& a.max_cache_size_bytes == b.max_cache_size_bytes
    &&& a.part_size_bytes == b.part_size_bytes
    &&& a.cache_puts == b.cache_puts
    &&& a.scan_interval == b.scan_interval
    &&& a.max_open_file_handles == b.max_open_file_handles
}

impl Clone for ObjectStoreCacheOptions {
    fn clone(&self) -> (r: ObjectStoreCacheOptions)
        ensures
            same_options(r, *self),
    {
        ObjectStoreCacheOptions {
            root_folder: match &self.root_folder {
                Some(folder) => Some(folder.clone()),
                None => None,
            },
            max_cache_size_bytes: self.max_cache_size_bytes,
            part_size_bytes: self.part_size_bytes,
            cache_puts: self.cache_puts,
            scan_interval: self.scan_interval,
            max_open_file_handles: self.max_open_file_handles,
        }
    }
}

/// The limit of the cache that is set by default.
pub open spec fn default_max_cache_size() -> int {
    if usize::MAX >= 17179869184 {
        17179869184
    } else {
        usize::MAX as int
    }
}

impl Default for ObjectStoreCacheOptions {
    fn default() -> (r: ObjectStoreCacheOptions)
        ensures
            r.root_folder is None,
            r.max_cache_size_bytes == Some(default_max_cache_size() as usize),
            r.part_size_bytes == 4194304,
            !r.cache_puts,
            r.scan_interval == Some(Interval { secs: 3600, nanos: 0 }),
            r.max_open_file_handles == 1000,
    {
        let limit: usize = if usize::MAX as u64 >= 17179869184u64 {
            17179869184u64 as usize
        } else {
            usize::MAX
        };
        ObjectStoreCacheOptions {
            root_folder: None,
            max_cache_size_bytes: Some(limit),
            part_size_bytes: 4194304,
            cache_puts: false,
            scan_interval: Some(Interval { secs: 3600, nanos: 0 }),
            max_open_file_handles: 1000,
        }
    }
}

/// An interval as text: seconds, milliseconds, or both with a plus sign between them.
/// What is below a millisecond is left out.
pub open spec fn interval_text_spec(interval: Interval) -> Seq<char> {
    let secs = text::decimal(interval.secs as nat) + "s"@;
    let millis = text::zero_padded((interval.nanos / 1000000) as nat, 3) + "ms"@;
    if interval.secs > 0 && interval.nanos / 1000000 > 0 {
        secs + "+"@ + millis
    } else if interval.nanos / 1000000 > 0 {
        millis
    } else {
        secs
    }
}

/// An interval as text, in the form in which settings are written.
pub fn interval_text(interval: &Interval) -> (r: String)
    ensures
        r@ == interval_text_spec(*interval),
{
    let millis: u32 = interval.nanos / 1000000;
    let mut r = String::new();
    if interval.secs > 0 || millis == 0 {
        r = text::decimal_text(interval.secs);
        r.append("s");
    }
    if interval.secs > 0 && millis > 0 {
        r.append("+");
    }
    if millis > 0 {
        r.append(text::zero_padded_text(millis as u64, 3).as_str());
        r.append("ms");
    }
    assert(r@ =~= interval_text_spec(*interval));
    r
}

/// The text of an interval tells its seconds and milliseconds: the seconds stand before an `s`
/// and are left out where there are milliseconds only, the milliseconds stand in three digits
/// before an `ms` and are left out where there are none, and a plus sign joins the two.
pub proof fn lemma_interval_text_form(interval: Interval)
    requires
        interval.nanos < 1_000_000_000,
    ensures
        ({
            let text = interval_text_spec(interval);
            let secs = text::decimal(interval.secs as nat);
            let n = secs.len() as int;
            let millis = interval.nanos as int / 1_000_000;
            &&& millis == 0 ==> text == secs.push('s')
            &&& millis > 0 && interval.secs == 0 ==> {
                &&& text.len() == 5
                &&& text::all_digits(text.take(3)) && text::digits_value(text.take(3)) == millis
                &&& text.skip(3) == seq!['m', 's']
            }
            &&& millis > 0 && interval.secs > 0 ==> {
                &&& text.len() == n + 7
                &&& text.take(n) == secs
                &&& text.subrange(n, n + 2) == seq!['s', '+']
                &&& text::all_digits(text.subrange(n + 2, n + 5))
                &&& text::digits_value(text.subrange(n + 2, n + 5)) == millis
                &&& text.skip(n + 5) == seq!['m', 's']
            }
        }),
{
    reveal_strlit("s");
    reveal_strlit("+");
    reveal_strlit("ms");
    let text = interval_text_spec(interval);
    let secs = text::decimal(interval.secs as nat);
    let n = secs.len() as int;
    let millis = (interval.nanos / 1000000) as nat;
    let digits = text::zero_padded(millis, 3);
    text::lemma_zero_padded_value(millis, 3);
    text::lemma_zero_padded_len(millis, 3, 0);
    reveal_with_fuel(text::ten_to, 4);
    text::lemma_decimal_len(millis, 3);
    if millis == 0 {
        assert(text =~= secs.push('s'));
    } else if interval.secs == 0 {
        assert(text.take(3) =~= digits);
        assert(text.skip(3) =~= seq!['m', 's']);
    } else {
        assert(text.take(n) =~= secs);
        assert(text.subrange(n, n + 2) =~= seq!['s', '+']);
        assert(text.subrange(n + 2, n + 5) =~= digits);
        assert(text.skip(n + 5) =~= seq!['m', 's']);
    }
}

/// The limit that is set by default is sixteen gigabytes, or what can be counted if that is
/// less.
pub proof fn lemma_default_limit()
    ensures
        default_max_cache_size() <= 16 * 1024 * 1024 * 1024,
        default_max_cache_size() <= usize::MAX,
        default_max_cache_size() == 16 * 1024 * 1024 * 1024 || default_max_cache_size()
            == usize::MAX,
{
}

/// Every setting of the one is that of the other; settings are the same as themselves, and a
/// copy of a copy is the same as what was copied first.
pub proof fn lemma_same_options(
    a: ObjectStoreCacheOptions,
    b: ObjectStoreCacheOptions,
    c: ObjectStoreCacheOptions,
)
    ensures
        same_options(a, a),
        same_options(a, b) ==> same_options(b, a),
        same_options(a, b) && same_options(b, c) ==> same_options(a, c),
        same_options(a, b) ==> a.part_size_bytes == b.part_size_bytes && a.cache_puts
            == b.cache_puts && a.max_cache_size_bytes == b.max_cache_size_bytes
            && a.scan_interval == b.scan_interval && a.max_open_file_handles
            == b.max_open_file_handles,
        same_options(a, b) && a.root_folder is Some ==> b.root_folder is Some
            && a.root_folder->0@ == b.root_folder->0@,
{
}

} // verus!
