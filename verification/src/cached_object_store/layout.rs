//! How the cache lies on disk. The parts of an object and its head lie in a folder
//! named after the object:
//!
//! ```text
//! <root>/<location>/_part4mb-000000000
//! <root>/<location>/_part4mb-000000001
//! <root>/<location>/_head
//! ```
//!
//! A file is written under a temporary name beside its place and then renamed.

use crate::cached_object_store::parts::PartID;
use crate::path::Path;
use crate::random;
use crate::random::DbRand;
use crate::sorting;
use crate::text;
use vstd::prelude::*;
use vstd::string::*;

verus! {

/// A file path one component deeper. `name` does not begin with a slash.
pub open spec fn deeper(folder: Seq<char>, name: Seq<char>) -> Seq<char> {
    if folder.len() > 0 && folder.last() != '/' {
        folder.push('/') + name
    } else {
        folder + name
    }
}

/// The part size in a file name, in megabytes where it is a whole number of them,
/// else in kilobytes. With the size in the name, the part size can change without
/// old files being taken for new ones.
pub open spec fn part_size_name(part_size: int) -> Seq<char> {
    if part_size % 1048576 == 0 {
        text::decimal((part_size / 1048576) as nat) + "mb"@
    } else {
        text::decimal((part_size / 1024) as nat) + "kb"@
    }
}

/// The file name of a part.
pub open spec fn part_file_name(part_number: int, part_size: int) -> Seq<char> {
    "_part"@ + part_size_name(part_size) + "-"@ + text::zero_padded(part_number as nat, 9)
}

/// The folder of an object.
pub open spec fn folder_of(root_folder: Seq<char>, location: Seq<char>) -> Seq<char> {
    deeper(root_folder, location)
}

/// Where a part of an object lies.
pub open spec fn part_path(
    root_folder: Seq<char>,
    location: Seq<char>,
    part_number: int,
    part_size: int,
) -> Seq<char> {
    deeper(folder_of(root_folder, location), part_file_name(part_number, part_size))
}

/// Where the head of an object lies.
pub open spec fn head_path(root_folder: Seq<char>, location: Seq<char>) -> Seq<char> {
    deeper(folder_of(root_folder, location), "_head"@)
}

pub(crate) fn push_component(folder: &mut String, name: &str)
    ensures
        final(folder)@ == deeper(old(folder)@, name@),
{
    let len: usize = folder.as_str().unicode_len();
    proof {
        reveal_strlit("/");
    }
    if len > 0 && folder.as_str().get_char(len - 1) != '/' {
        folder.append("/");
        assert(folder@ =~= old(folder)@.push('/'));
    }
    folder.append(name);
}

/// The folder in which the files of an object lie.
pub fn make_folder_path(root_folder: &str, location: &Path) -> (r: String)
    ensures
        r@ == folder_of(root_folder@, location@),
{
    let mut r = root_folder.to_owned();
    push_component(&mut r, location.as_str());
    r
}

/// The path of a part file.
pub fn make_part_path(
    root_folder: &str,
    location: &Path,
    part_number: PartID,
    part_size: usize,
) -> (r: String)
    ensures
        r@ == part_path(root_folder@, location@, part_number as int, part_size as int),
{
    let mut name = String::from_str("_part");
    if part_size % 1048576 == 0 {
        name.append(text::decimal_text((part_size / 1048576) as u64).as_str());
        name.append("mb");
    } else {
        name.append(text::decimal_text((part_size / 1024) as u64).as_str());
        name.append("kb");
    }
    name.append("-");
    name.append(text::zero_padded_text(part_number as u64, 9).as_str());
    assert(name@ =~= part_file_name(part_number as int, part_size as int));
    let mut r = make_folder_path(root_folder, location);
    push_component(&mut r, name.as_str());
    r
}

/// The path of a head file.
pub fn make_head_path(root_folder: &str, location: &Path) -> (r: String)
    ensures
        r@ == head_path(root_folder@, location@),
{
    let mut r = make_folder_path(root_folder, location);
    push_component(&mut r, "_head");
    r
}

/// The temporary path of a file that is written in one go: the path with a dot,
/// `_tmp` and `suffix` behind it.
pub fn atomic_tmp_path(path: &str, suffix: &str) -> (r: String)
    ensures
        r@ == path@ + "._tmp"@ + suffix@,
{
    let mut r = path.to_owned();
    r.append("._tmp");
    r.append(suffix);
    r
}

/// The temporary path of a file that a tee writes: the path with `.tmp-` and
/// `suffix` behind it, by which a sweep knows it.
pub fn tee_tmp_path(path: &str, suffix: &str) -> (r: String)
    ensures
        r@ == path@ + ".tmp-"@ + suffix@,
{
    let mut r = path.to_owned();
    r.append(".tmp-");
    r.append(suffix);
    r
}

/// A temporary path for a file that is written in one go, with a random suffix.
pub fn random_atomic_tmp_path(rng: &mut DbRand, path: &str, suffix_len: usize) -> (r: String)
    ensures
        r@ == path@ + "._tmp"@ + random::drawn_suffix(old(rng).seed(), suffix_len as nat),
        forall|i: int|
            0 <= i < suffix_len ==> random::is_alphanumeric(
                #[trigger] random::drawn_suffix(old(rng).seed(), suffix_len as nat)[i],
            ),
        final(rng).seed() == random::seed_after(old(rng).seed(), suffix_len as nat),
{
    let suffix = rng.rand_suffix(suffix_len);
    atomic_tmp_path(path, suffix.as_str())
}

/// `needle` stands somewhere in `s`.
pub open spec fn holds_text(s: Seq<char>, needle: Seq<char>) -> bool {
    exists|i: int| #[trigger] is_at(s, needle, i)
}

/// `needle` stands in `s` at position `i`.
pub open spec fn is_at(s: Seq<char>, needle: Seq<char>, i: int) -> bool {
    0 <= i && i + needle.len() <= s.len() && s.subrange(i, i + needle.len()) == needle
}

/// Whether a file was left behind by a tee that did not commit.
pub fn is_orphan(file_name: &str) -> (r: bool)
    ensures
        r <==> holds_text(file_name@, ".tmp-"@),
{
    let chars = text::chars_of(file_name);
    let needle = text::chars_of(".tmp-");
    let n: usize = needle.len();
    let len: usize = chars.len();
    let ghost s = file_name@;
    let ghost want = ".tmp-"@;
    let mut i: usize = 0;
    if len < n {
        return false;
    }
    while i <= len - n
        invariant
            s == file_name@,
            want == ".tmp-"@,
            chars@ == s,
            needle@ == want,
            n == want.len(),
            len == s.len(),
            n <= len,
            i <= len - n + 1,
            forall|j: int| 0 <= j < i ==> !#[trigger] is_at(s, want, j),
        decreases len - n + 1 - i,
    {
        let mut k: usize = 0;
        while k < n && chars[i + k] == needle[k]
            invariant
                chars@ == s,
                needle@ == want,
                n == want.len(),
                len == s.len(),
                i + n <= len,
                k <= n,
                forall|j: int| 0 <= j < k ==> s[i + j] == #[trigger] want[j],
            decreases n - k,
        {
            k = k + 1;
        }
        if k == n {
            assert(s.subrange(i as int, i + n) =~= want);
            assert(is_at(s, want, i as int));
            return true;
        }
        proof {
            if is_at(s, want, i as int) {
                assert(s.subrange(i as int, i + n)[k as int] == want[k as int]);
            }
        }
        i = i + 1;
    }
    false
}

/// The part of `s` behind the last `sep`, or all of it if there is none.
pub open spec fn behind_last(s: Seq<char>, sep: char) -> Seq<char>
    decreases s.len(),
{
    if s.len() == 0 {
        s
    } else if s.last() == sep {
        Seq::empty()
    } else {
        behind_last(s.drop_last(), sep).push(s.last())
    }
}

/// The name of the file that a path leads to.
pub open spec fn file_name_of(path: Seq<char>) -> Seq<char> {
    behind_last(path, '/')
}

proof fn lemma_behind_last(s: Seq<char>, sep: char, i: int)
    requires
        0 <= i <= s.len(),
        i == 0 || s[i - 1] == sep,
        forall|k: int| i <= k < s.len() ==> #[trigger] s[k] != sep,
    ensures
        behind_last(s, sep) == s.skip(i),
    decreases s.len(),
{
    if i == s.len() {
        assert(s.skip(i) =~= Seq::empty());
    } else {
        lemma_behind_last(s.drop_last(), sep, i);
        assert(s.skip(i) =~= s.drop_last().skip(i).push(s.last()));
    }
}

/// The part of `s` behind the last `sep`, or all of it if there is none.
fn text_behind_last(s: &str, sep: char) -> (r: String)
    ensures
        r@ == behind_last(s@, sep),
{
    let len: usize = s.unicode_len();
    let mut i: usize = len;
    while i > 0 && s.get_char(i - 1) != sep
        invariant
            i <= len,
            len == s@.len(),
            forall|k: int| i <= k < len ==> #[trigger] s@[k] != sep,
        decreases i,
    {
        i = i - 1;
    }
    proof {
        lemma_behind_last(s@, sep, i as int);
    }
    let r = s.substring_char(i, len).to_owned();
    assert(r@ =~= s@.skip(i as int));
    r
}

/// The name of the file that a path leads to.
pub fn file_name(path: &str) -> (r: String)
    ensures
        r@ == file_name_of(path@),
{
    text_behind_last(path, '/')
}

/// A path whose file was left behind by a tee that did not commit.
pub open spec fn is_orphan_path(path: String) -> bool {
    holds_text(file_name_of(path@), ".tmp-"@)
}

/// The files that a sweep keeps, in the order in which they were found.
pub open spec fn kept_paths(paths: Seq<String>) -> Seq<String> {
    paths.filter(|p: String| !is_orphan_path(p))
}

/// The files that a sweep deletes, in the order in which they were found.
pub open spec fn orphan_paths(paths: Seq<String>) -> Seq<String> {
    paths.filter(|p: String| is_orphan_path(p))
}

/// Parts what a scan has found into the files to keep and the files to delete, each
/// in the order in which it was found.
pub fn sweep(paths: &Vec<String>) -> (r: (Vec<String>, Vec<String>))
    ensures
        r.0@ == kept_paths(paths@),
        r.1@ == orphan_paths(paths@),
{
    let mut keep: Vec<String> = Vec::new();
    let mut orphans: Vec<String> = Vec::new();
    let mut i: usize = 0;
    proof {
        reveal(Seq::filter);
        assert(paths@.take(0) =~= Seq::<String>::empty());
    }
    while i < paths.len()
        invariant
            i <= paths@.len(),
            keep@ == kept_paths(paths@.take(i as int)),
            orphans@ == orphan_paths(paths@.take(i as int)),
        decreases paths@.len() - i,
    {
        proof {
            reveal(Seq::filter);
            assert(paths@.take(i + 1).drop_last() =~= paths@.take(i as int));
            assert(paths@.take(i + 1).last() == paths@[i as int]);
        }
        let path = paths[i].clone();
        let name = file_name(path.as_str());
        if is_orphan(name.as_str()) {
            orphans.push(path);
        } else {
            keep.push(path);
        }
        i = i + 1;
    }
    assert(paths@.take(i as int) =~= paths@);
    (keep, orphans)
}

/// `s` begins with `prefix`.
pub open spec fn begins_with(s: Seq<char>, prefix: Seq<char>) -> bool {
    prefix.len() <= s.len() && s.take(prefix.len() as int) == prefix
}

/// The number of the part that a file name stands for, if it is the name of a part.
pub open spec fn part_number_spec(file_name: Seq<char>) -> Option<PartID> {
    if begins_with(file_name, "_part"@) {
        text::parsed_usize(behind_last(file_name, '-'))
    } else {
        None
    }
}

/// The number of the part that a file name stands for, if it is the name of a part.
pub fn part_number(file_name: &str) -> (r: Option<PartID>)
    ensures
        r == part_number_spec(file_name@),
{
    proof {
        reveal_strlit("_part");
    }
    let len: usize = file_name.unicode_len();
    if len < 5 {
        return None;
    }
    let start = file_name.substring_char(0, 5).to_owned();
    assert(start@ =~= file_name@.take(5));
    if start != String::from_str("_part") {
        return None;
    }
    let digits = text_behind_last(file_name, '-');
    text::parse_usize(digits.as_str())
}

/// The numbers of those files that are parts, in the order of the files.
pub open spec fn part_numbers(files: Seq<String>) -> Seq<PartID>
    decreases files.len(),
{
    if files.len() == 0 {
        Seq::empty()
    } else {
        match part_number_spec(files.last()@) {
            Some(n) => part_numbers(files.drop_last()).push(n),
            None => part_numbers(files.drop_last()),
        }
    }
}

fn numbers_of(files: &Vec<String>) -> (r: Vec<PartID>)
    ensures
        r@ == part_numbers(files@),
{
    let mut out: Vec<PartID> = Vec::new();
    let mut i: usize = 0;
    assert(files@.take(0) =~= Seq::<String>::empty());
    while i < files.len()
        invariant
            i <= files@.len(),
            out@ == part_numbers(files@.take(i as int)),
        decreases files@.len() - i,
    {
        proof {
            assert(files@.take(i + 1).drop_last() =~= files@.take(i as int));
            assert(files@.take(i + 1).last() == files@[i as int]);
        }
        if let Some(n) = part_number(files[i].as_str()) {
            out.push(n);
        }
        i = i + 1;
    }
    assert(files@.take(i as int) =~= files@);
    out
}

/// The parts that are cached, given the names of the files in the folder of an
/// object: their numbers in the alphabetical order of the names.
pub fn cached_parts_by_name(files: Vec<String>) -> (r: Vec<PartID>)
    ensures
        exists|names: Seq<String>|
            sorting::is_sorted(names) && names.to_multiset() == files@.to_multiset() && r@
                == #[trigger] part_numbers(names),
{
    let names = sorting::sorted(files);
    numbers_of(&names)
}

/// The parts that are cached, given the names of the files in the folder of an
/// object: their numbers, smallest first.
pub fn cached_parts(files: &Vec<String>) -> (r: Vec<PartID>)
    ensures
        sorting::is_sorted(r@),
        r@.to_multiset() == part_numbers(files@).to_multiset(),
{
    sorting::sorted(numbers_of(files))
}

/// `c` stands somewhere in `s`.
pub open spec fn has_char(s: Seq<char>, c: char) -> bool {
    exists|i: int| 0 <= i < s.len() && #[trigger] s[i] == c
}

proof fn lemma_digits_hold_no(s: Seq<char>, c: char)
    requires
        text::all_digits(s),
        !text::is_digit(c),
    ensures
        !has_char(s, c),
{
    if has_char(s, c) {
        let i = choose|i: int| 0 <= i < s.len() && #[trigger] s[i] == c;
        assert(text::is_digit(s[i]));
    }
}

proof fn lemma_concat_holds_no(a: Seq<char>, b: Seq<char>, c: char)
    requires
        !has_char(a, c),
        !has_char(b, c),
    ensures
        !has_char(a + b, c),
{
    if has_char(a + b, c) {
        let i = choose|i: int| 0 <= i < (a + b).len() && #[trigger] (a + b)[i] == c;
        if i < a.len() {
            assert(a[i] == c);
        } else {
            assert(b[i - a.len()] == c);
        }
    }
}

/// The name of a part holds neither a dot nor a slash.
proof fn lemma_part_file_name_chars(part_number: int, part_size: int, c: char)
    requires
        c == '.' || c == '/',
    ensures
        !has_char(part_file_name(part_number, part_size), c),
{
    reveal_strlit("_part");
    reveal_strlit("mb");
    reveal_strlit("kb");
    reveal_strlit("-");
    text::lemma_decimal_value((part_size / 1048576) as nat);
    text::lemma_decimal_value((part_size / 1024) as nat);
    text::lemma_zero_padded_value(part_number as nat, 9);
    lemma_digits_hold_no(text::decimal((part_size / 1048576) as nat), c);
    lemma_digits_hold_no(text::decimal((part_size / 1024) as nat), c);
    lemma_digits_hold_no(text::zero_padded(part_number as nat, 9), c);
    lemma_concat_holds_no(text::decimal((part_size / 1048576) as nat), "mb"@, c);
    lemma_concat_holds_no(text::decimal((part_size / 1024) as nat), "kb"@, c);
    let size = part_size_name(part_size);
    lemma_concat_holds_no("_part"@, size, c);
    lemma_concat_holds_no("_part"@ + size, "-"@, c);
    lemma_concat_holds_no("_part"@ + size + "-"@, text::zero_padded(part_number as nat, 9), c);
}

/// The file name of a path with a component of its own behind it is that component.
proof fn lemma_file_name_deeper(folder: Seq<char>, name: Seq<char>)
    requires
        !has_char(name, '/'),
    ensures
        file_name_of(deeper(folder, name)) == name,
{
    let path = deeper(folder, name);
    let i = path.len() - name.len();
    assert forall|k: int| i <= k < path.len() implies #[trigger] path[k] != '/' by {
        assert(path[k] == name[k - i]);
    }
    lemma_behind_last(path, '/', i);
    assert(path.skip(i) =~= name);
}

/// The part of a name in front of its number, up to the dash.
spec fn name_front(part_size: int) -> Seq<char> {
    "_part"@ + part_size_name(part_size) + "-"@
}

/// The number is what stands behind the last dash of a name.
proof fn lemma_name_behind_dash(part_number: int, part_size: int)
    ensures
        part_file_name(part_number, part_size) == name_front(part_size) + text::zero_padded(
            part_number as nat,
            9,
        ),
        behind_last(part_file_name(part_number, part_size), '-') == text::zero_padded(
            part_number as nat,
            9,
        ),
        name_front(part_size).len() == part_size_name(part_size).len() + 6,
{
    reveal_strlit("_part");
    reveal_strlit("-");
    let name = part_file_name(part_number, part_size);
    let digits = text::zero_padded(part_number as nat, 9);
    let n = name_front(part_size).len() as int;
    assert(name =~= name_front(part_size) + digits);
    text::lemma_zero_padded_value(part_number as nat, 9);
    assert forall|k: int| n <= k < name.len() implies #[trigger] name[k] != '-' by {
        assert(name[k] == digits[k - n]);
        assert(text::is_digit(digits[k - n]));
    }
    assert(name[n - 1] == '-');
    lemma_behind_last(name, '-', n);
    assert(name.skip(n) =~= digits);
}

/// The part size is told by its name, if it is a whole number of kilobytes.
proof fn lemma_part_size_name_injective(s: int, t: int)
    requires
        s > 0,
        t > 0,
        s % 1024 == 0,
        t % 1024 == 0,
        part_size_name(s) == part_size_name(t),
    ensures
        s == t,
{
    reveal_strlit("mb");
    reveal_strlit("kb");
    let name = part_size_name(s);
    let n = name.len() as int;
    assert(name[n - 2] == if s % 1048576 == 0 {
        'm'
    } else {
        'k'
    });
    assert(name[n - 2] == if t % 1048576 == 0 {
        'm'
    } else {
        'k'
    });
    if s % 1048576 == 0 {
        assert(name.take(n - 2) =~= text::decimal((s / 1048576) as nat));
        assert(name.take(n - 2) =~= text::decimal((t / 1048576) as nat));
        text::lemma_decimal_injective((s / 1048576) as nat, (t / 1048576) as nat);
    } else {
        assert(name.take(n - 2) =~= text::decimal((s / 1024) as nat));
        assert(name.take(n - 2) =~= text::decimal((t / 1024) as nat));
        text::lemma_decimal_injective((s / 1024) as nat, (t / 1024) as nat);
    }
}

/// Different parts of an object lie in different files, and so do parts of different sizes:
/// the part size can change without old files being taken for new ones.
pub proof fn lemma_part_paths_differ(
    root_folder: Seq<char>,
    location: Seq<char>,
    a: int,
    part_size: int,
    b: int,
    other_size: int,
)
    requires
        a >= 0,
        b >= 0,
        part_size > 0,
        other_size > 0,
        part_size % 1024 == 0,
        other_size % 1024 == 0,
        part_path(root_folder, location, a, part_size) == part_path(
            root_folder,
            location,
            b,
            other_size,
        ),
    ensures
        a == b,
        part_size == other_size,
{
    let folder = folder_of(root_folder, location);
    lemma_part_file_name_chars(a, part_size, '/');
    lemma_part_file_name_chars(b, other_size, '/');
    lemma_file_name_deeper(folder, part_file_name(a, part_size));
    lemma_file_name_deeper(folder, part_file_name(b, other_size));
    lemma_name_behind_dash(a, part_size);
    lemma_name_behind_dash(b, other_size);
    text::lemma_zero_padded_injective(a as nat, b as nat, 9);
    let name = part_file_name(a, part_size);
    let n = name_front(part_size).len() as int;
    reveal_strlit("_part");
    reveal_strlit("-");
    assert(name_front(other_size).len() == n);
    assert(name.take(n) =~= name_front(part_size));
    assert(name.take(n) =~= name_front(other_size));
    assert(name.subrange(5, n - 1) =~= part_size_name(part_size)) by {
        assert(name_front(part_size).subrange(5, n - 1) =~= part_size_name(part_size));
    }
    assert(name.subrange(5, n - 1) =~= part_size_name(other_size)) by {
        assert(name_front(other_size).subrange(5, n - 1) =~= part_size_name(other_size));
    }
    lemma_part_size_name_injective(part_size, other_size);
}

/// The names of the parts of an object stand in the alphabet as their numbers do, up to a
/// thousand million parts.
pub proof fn lemma_part_names_in_order(a: int, b: int, part_size: int)
    requires
        0 <= a <= b < 1000000000,
    ensures
        sorting::alphabetical(part_file_name(a, part_size), part_file_name(b, part_size)),
{
    reveal_with_fuel(text::ten_to, 10);
    text::lemma_decimal_len(a as nat, 9);
    text::lemma_decimal_len(b as nat, 9);
    text::lemma_zero_padded_value(a as nat, 9);
    text::lemma_zero_padded_value(b as nat, 9);
    let x = text::zero_padded(a as nat, 9);
    let y = text::zero_padded(b as nat, 9);
    sorting::lemma_digits_in_order(x, y);
    lemma_name_behind_dash(a, part_size);
    lemma_name_behind_dash(b, part_size);
    sorting::lemma_alphabetical_prefix(name_front(part_size), x, y);
}

/// No part lies where the head of its object lies.
pub proof fn lemma_part_is_not_head(
    root_folder: Seq<char>,
    location: Seq<char>,
    part_number: int,
    part_size: int,
)
    ensures
        part_path(root_folder, location, part_number, part_size) != head_path(
            root_folder,
            location,
        ),
{
    reveal_strlit("_head");
    reveal_strlit("_part");
    let folder = folder_of(root_folder, location);
    lemma_part_file_name_chars(part_number, part_size, '/');
    lemma_file_name_deeper(folder, part_file_name(part_number, part_size));
    assert(!has_char("_head"@, '/'));
    lemma_file_name_deeper(folder, "_head"@);
    assert(part_file_name(part_number, part_size)[1] == 'p');
    assert("_head"@[1] == 'h');
}

/// The number of a part is read back from the name of its file.
pub proof fn lemma_part_number_reads_back(part_number: PartID, part_size: int)
    ensures
        part_number_spec(part_file_name(part_number as int, part_size)) == Some(part_number),
{
    reveal_strlit("_part");
    let name = part_file_name(part_number as int, part_size);
    lemma_name_behind_dash(part_number as int, part_size);
    assert(name.take(5) =~= "_part"@);
    text::lemma_parse_zero_padded(part_number, 9);
}

/// A sweep keeps the files of the cache and deletes what a tee has left behind: no
/// part and no head is an orphan, and every temporary file of a tee is one.
pub proof fn lemma_sweep_tells_files_apart(
    root_folder: Seq<char>,
    location: Seq<char>,
    part_number: int,
    part_size: int,
    suffix: Seq<char>,
)
    requires
        forall|i: int| 0 <= i < suffix.len() ==> random::is_alphanumeric(#[trigger] suffix[i]),
    ensures
        ({
            let part = part_path(root_folder, location, part_number, part_size);
            let head = head_path(root_folder, location);
            let infix = ".tmp-"@;
            &&& !holds_text(file_name_of(part), infix)
            &&& !holds_text(file_name_of(head), infix)
            &&& holds_text(file_name_of(part + infix + suffix), infix)
            &&& holds_text(file_name_of(head + infix + suffix), infix)
        }),
{
    reveal_strlit("_head");
    reveal_strlit(".tmp-");
    let folder = folder_of(root_folder, location);
    let infix = ".tmp-"@;
    lemma_part_file_name_chars(part_number, part_size, '/');
    lemma_part_file_name_chars(part_number, part_size, '.');
    assert(!has_char("_head"@, '/'));
    assert(!has_char("_head"@, '.'));
    lemma_tmp_name(folder, part_file_name(part_number, part_size), suffix);
    lemma_tmp_name(folder, "_head"@, suffix);
}

proof fn lemma_tmp_name(folder: Seq<char>, name: Seq<char>, suffix: Seq<char>)
    requires
        !has_char(name, '/'),
        !has_char(name, '.'),
        forall|i: int| 0 <= i < suffix.len() ==> random::is_alphanumeric(#[trigger] suffix[i]),
    ensures
        file_name_of(deeper(folder, name)) == name,
        !holds_text(file_name_of(deeper(folder, name)), ".tmp-"@),
        holds_text(file_name_of(deeper(folder, name) + ".tmp-"@ + suffix), ".tmp-"@),
{
    reveal_strlit(".tmp-");
    let infix = ".tmp-"@;
    lemma_file_name_deeper(folder, name);
    if holds_text(name, infix) {
        let i = choose|i: int| #[trigger] is_at(name, infix, i);
        assert(name.subrange(i, i + infix.len())[0] == '.');
        assert(name[i] == '.');
    }
    let tmp = name + infix + suffix;
    assert(!has_char(infix, '/'));
    assert(!has_char(suffix, '/'));
    lemma_concat_holds_no(name, infix, '/');
    lemma_concat_holds_no(name + infix, suffix, '/');
    lemma_file_name_deeper(folder, tmp);
    assert(deeper(folder, name) + infix + suffix =~= deeper(folder, tmp));
    assert(tmp.subrange(name.len() as int, name.len() as int + infix.len()) =~= infix);
    assert(is_at(tmp, infix, name.len() as int));
}

/// A path one component deeper begins with the folder and ends with the name, with one slash
/// between them where the folder is not empty.
pub proof fn lemma_deeper(folder: Seq<char>, name: Seq<char>)
    ensures
        ({
            let path = deeper(folder, name);
            let n = path.len() - name.len();
            &&& path.take(folder.len() as int) == folder
            &&& path.skip(n) == name
            &&& folder.len() == 0 ==> path == name
            &&& folder.len() > 0 ==> path[n - 1] == '/'
            &&& folder.len() > 0 && folder.last() != '/' ==> path == folder + seq!['/'] + name
            &&& folder.len() > 0 && folder.last() == '/' ==> path == folder + name
        }),
{
    let path = deeper(folder, name);
    let n = path.len() - name.len();
    assert(path.take(folder.len() as int) =~= folder);
    assert(path.skip(n) =~= name);
    if folder.len() > 0 && folder.last() != '/' {
        assert(path =~= folder + seq!['/'] + name);
    }
    if folder.len() == 0 {
        assert(path =~= name);
    }
}

/// The name of a part size tells it: a number and a unit of two letters, megabytes wherever it
/// is a whole number of them, that multiplied make up the size.
pub proof fn lemma_part_size_is_named(part_size: int)
    requires
        part_size > 0,
        part_size % 1024 == 0,
    ensures
        ({
            let name = part_size_name(part_size);
            let n = name.len() - 2;
            let number = text::digits_value(name.take(n));
            &&& n > 0
            &&& name[n + 1] == 'b'
            &&& name[n] == 'm' || name[n] == 'k'
            &&& name[n] == 'm' <==> part_size % 1048576 == 0
            &&& name[n] == 'm' ==> number * 1048576 == part_size
            &&& name[n] == 'k' ==> number * 1024 == part_size
        }),
{
    reveal_strlit("mb");
    reveal_strlit("kb");
    let name = part_size_name(part_size);
    let n = name.len() - 2;
    text::lemma_decimal_value((part_size / 1048576) as nat);
    text::lemma_decimal_value((part_size / 1024) as nat);
    if part_size % 1048576 == 0 {
        assert(name.take(n) =~= text::decimal((part_size / 1048576) as nat));
    } else {
        assert(name.take(n) =~= text::decimal((part_size / 1024) as nat));
    }
}

/// The name of a part is `_part`, the name of the part size, a dash, and the number of the part,
/// filled up with zeros to nine digits.
pub proof fn lemma_part_name_form(part_number: int, part_size: int)
    requires
        part_number >= 0,
    ensures
        ({
            let name = part_file_name(part_number, part_size);
            let n = part_size_name(part_size).len() as int;
            let digits = name.skip(n + 6);
            &&& name.len() >= n + 15
            &&& name.take(5) == "_part"@
            &&& name.subrange(5, n + 5) == part_size_name(part_size)
            &&& name[n + 5] == '-'
            &&& part_number < 1000000000 ==> digits.len() == 9
            &&& text::all_digits(digits) && text::digits_value(digits) == part_number
        }),
{
    reveal_strlit("_part");
    reveal_strlit("-");
    let name = part_file_name(part_number, part_size);
    let size = part_size_name(part_size);
    let n = size.len() as int;
    let digits = text::zero_padded(part_number as nat, 9);
    assert(name == "_part"@ + size + "-"@ + digits);
    assert(name.take(5) =~= "_part"@);
    assert(name.subrange(5, n + 5) =~= size);
    assert(name.skip(n + 6) =~= digits);
    text::lemma_zero_padded_value(part_number as nat, 9);
    text::lemma_zero_padded_len(part_number as nat, 9, 0);
    if part_number < 1000000000 {
        lemma_nine_digits(part_number as nat);
    }
}

proof fn lemma_nine_digits(n: nat)
    requires
        n < 1000000000,
    ensures
        text::decimal(n).len() <= 9,
{
    reveal_with_fuel(text::ten_to, 10);
    text::lemma_decimal_len(n, 9);
}

/// The file of a part lies in the folder of its object, under the name of the part.
pub proof fn lemma_part_path_form(
    root_folder: Seq<char>,
    location: Seq<char>,
    part_number: int,
    part_size: int,
)
    ensures
        ({
            let folder = deeper(root_folder, location);
            let path = part_path(root_folder, location, part_number, part_size);
            &&& path.take(folder.len() as int) == folder
            &&& path.len() <= folder.len() + 1 + file_name_of(path).len()
            &&& file_name_of(path) == part_file_name(part_number, part_size)
        }),
{
    let folder = folder_of(root_folder, location);
    let name = part_file_name(part_number, part_size);
    lemma_deeper(folder, name);
    lemma_part_file_name_chars(part_number, part_size, '/');
    lemma_file_name_deeper(folder, name);
}

/// The head of an object lies in its folder, in a file that is named `_head`.
pub proof fn lemma_head_path_form(root_folder: Seq<char>, location: Seq<char>)
    ensures
        ({
            let folder = deeper(root_folder, location);
            let path = head_path(root_folder, location);
            &&& path.take(folder.len() as int) == folder
            &&& file_name_of(path) == seq!['_', 'h', 'e', 'a', 'd']
        }),
{
    reveal_strlit("_head");
    lemma_deeper(folder_of(root_folder, location), "_head"@);
    assert(!has_char("_head"@, '/'));
    lemma_file_name_deeper(folder_of(root_folder, location), "_head"@);
    assert("_head"@ =~= seq!['_', 'h', 'e', 'a', 'd']);
}

/// What stands behind the last separator is the end of the text, holds no separator, and
/// begins behind one or is the whole text.
pub proof fn lemma_behind_last_separator(s: Seq<char>, sep: char, k: int)
    ensures
        ({
            let r = behind_last(s, sep);
            let n = s.len() - r.len();
            &&& 0 <= n
            &&& s.skip(n) == r
            &&& 0 <= k < r.len() ==> r[k] != sep
            &&& n > 0 ==> s[n - 1] == sep
        }),
    decreases s.len(),
{
    if s.len() == 0 {
        assert(s.skip(0) =~= s);
    } else if s.last() == sep {
        assert(s.skip(s.len() as int) =~= Seq::<char>::empty());
    } else {
        let rest = s.drop_last();
        lemma_behind_last_separator(rest, sep, k);
        let r = behind_last(s, sep);
        let n = s.len() - r.len();
        assert(s.skip(n) =~= rest.skip(n).push(s.last()));
    }
}

/// A text holds another exactly if it is made up of something, the other, and something.
pub proof fn lemma_holds_text(s: Seq<char>, needle: Seq<char>, a: Seq<char>, b: Seq<char>)
    ensures
        holds_text(a + needle + b, needle),
        holds_text(s, needle) ==> exists|x: Seq<char>, y: Seq<char>|
            s == #[trigger] (x + needle + y),
{
    let whole = a + needle + b;
    assert(whole.subrange(a.len() as int, a.len() as int + needle.len()) =~= needle);
    assert(is_at(whole, needle, a.len() as int));
    if holds_text(s, needle) {
        let i = choose|i: int| #[trigger] is_at(s, needle, i);
        let x = s.take(i);
        let y = s.skip(i + needle.len());
        assert(s =~= x + s.subrange(i, i + needle.len()) + y);
        assert(s == x + needle + y);
    }
}

/// A sweep deletes exactly the files that a tee has left behind and keeps all others.
pub proof fn lemma_sweep_parts_files(paths: Seq<String>, path: String)
    ensures
        kept_paths(paths).contains(path) <==> paths.contains(path) && !is_orphan_path(path),
        orphan_paths(paths).contains(path) <==> paths.contains(path) && is_orphan_path(path),
        kept_paths(paths).len() + orphan_paths(paths).len() == paths.len(),
{
    let keep = |p: String| !is_orphan_path(p);
    let orphan = |p: String| is_orphan_path(p);
    let kept = paths.filter(keep);
    let orphans = paths.filter(orphan);
    assert(kept == kept_paths(paths));
    assert(orphans == orphan_paths(paths));
    if kept.contains(path) {
        let k = choose|k: int| 0 <= k < kept.len() && kept[k] == path;
        paths.lemma_filter_pred(keep, k);
        paths.lemma_filter_contains_rev(keep, path);
    }
    if orphans.contains(path) {
        let k = choose|k: int| 0 <= k < orphans.len() && orphans[k] == path;
        paths.lemma_filter_pred(orphan, k);
        paths.lemma_filter_contains_rev(orphan, path);
    }
    if paths.contains(path) {
        let k = choose|k: int| 0 <= k < paths.len() && paths[k] == path;
        if orphan(path) {
            paths.lemma_filter_contains(orphan, k);
        } else {
            assert(keep(path));
            paths.lemma_filter_contains(keep, k);
        }
    }
    lemma_sweep_count(paths);
}

proof fn lemma_sweep_count(paths: Seq<String>)
    ensures
        kept_paths(paths).len() + orphan_paths(paths).len() == paths.len(),
    decreases paths.len(),
{
    reveal(Seq::filter);
    if paths.len() > 0 {
        lemma_sweep_count(paths.drop_last());
    }
}

/// A sweep keeps the order: what it makes of one row of files behind another is what it makes
/// of the first and then of the second.
pub proof fn lemma_sweep_in_order(a: Seq<String>, b: Seq<String>)
    ensures
        kept_paths(a + b) == kept_paths(a) + kept_paths(b),
        orphan_paths(a + b) == orphan_paths(a) + orphan_paths(b),
{
    Seq::filter_distributes_over_add(a, b, |p: String| !is_orphan_path(p));
    Seq::filter_distributes_over_add(a, b, |p: String| is_orphan_path(p));
}

/// A file name is that of a part exactly if it begins with `_part` and a number stands behind
/// its last dash; that is the number of the part.
pub proof fn lemma_part_number_of_name(front: Seq<char>, digits: Seq<char>, name: Seq<char>)
    requires
        !has_char(digits, '-'),
    ensures
        part_number_spec("_part"@ + front + "-"@ + digits) == text::parsed_usize(digits),
        name.len() < 5 || name.take(5) != "_part"@ ==> part_number_spec(name) is None,
{
    reveal_strlit("_part");
    reveal_strlit("-");
    let whole = "_part"@ + front + "-"@ + digits;
    let n = whole.len() - digits.len();
    assert(whole.take(5) =~= "_part"@);
    assert(whole[n - 1] == '-');
    assert forall|k: int| n <= k < whole.len() implies #[trigger] whole[k] != '-' by {
        assert(whole[k] == digits[k - n]);
    }
    lemma_behind_last(whole, '-', n);
    assert(whole.skip(n) =~= digits);
}

/// The parts that a row of files stands for are those of its first files, and then those of
/// the rest; one file stands for its part, if it is one.
pub proof fn lemma_part_numbers_in_order(a: Seq<String>, b: Seq<String>, file: String)
    ensures
        part_numbers(a + b) == part_numbers(a) + part_numbers(b),
        part_numbers(seq![file]) == (match part_number_spec(file@) {
            Some(n) => seq![n],
            None => Seq::empty(),
        }),
    decreases b.len(),
{
    reveal_with_fuel(part_numbers, 2);
    assert(seq![file].drop_last() =~= Seq::<String>::empty());
    assert(seq![file].last() == file);
    assert(part_numbers(seq![file]) =~= (match part_number_spec(file@) {
        Some(n) => seq![n],
        None => Seq::empty(),
    }));
    if b.len() == 0 {
        assert(a + b =~= a);
        assert(part_numbers(a) + part_numbers(b) =~= part_numbers(a));
    } else {
        lemma_part_numbers_in_order(a, b.drop_last(), file);
        assert((a + b).drop_last() =~= a + b.drop_last());
        assert((a + b).last() == b.last());
        assert(part_numbers(a + b) =~= part_numbers(a) + part_numbers(b));
    }
}

/// A text begins with another exactly if it is the other with something behind it, or nothing.
pub proof fn lemma_begins_with(s: Seq<char>, prefix: Seq<char>, rest: Seq<char>)
    ensures
        begins_with(prefix + rest, prefix),
        begins_with(s, prefix) ==> prefix.len() <= s.len() && s == prefix + s.skip(
            prefix.len() as int,
        ),
{
    assert((prefix + rest).take(prefix.len() as int) =~= prefix);
    if begins_with(s, prefix) {
        assert(s =~= s.take(prefix.len() as int) + s.skip(prefix.len() as int));
    }
}

} // verus!
