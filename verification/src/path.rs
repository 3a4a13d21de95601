//! Object paths: segments joined by single slashes, with neither a leading nor a
//! trailing slash.

use vstd::prelude::*;
use vstd::string::*;

verus! {

/// A raw object path: no leading slash, no trailing slash and no empty segment.
/// The empty text is the root.
pub open spec fn is_raw_path(s: Seq<char>) -> bool {
    s.len() > 0 ==> {
        &&& s[0] != '/'
        &&& s.last() != '/'
        &&& forall|i: int| 0 <= i < s.len() - 1 && #[trigger] s[i] == '/' ==> s[i + 1] != '/'
    }
}

/// Characters that stand for themselves in an object path. The others are written
/// in percent encoding.
pub open spec fn is_plain_char(c: char) -> bool {
    &&& ' ' <= c <= '}'
    &&& c != '\\' && c != '{' && c != '^' && c != '}' && c != '%' && c != '`' && c != ']'
    &&& c != '"' && c != '>' && c != '[' && c != '<' && c != '#' && c != '|' && c != '*'
    &&& c != '?'
}

/// `s[i..j]` is one whole segment of `s`.
pub open spec fn is_segment(s: Seq<char>, i: int, j: int) -> bool {
    &&& 0 <= i <= j <= s.len()
    &&& i == 0 || s[i - 1] == '/'
    &&& j == s.len() || s[j] == '/'
    &&& forall|k: int| i <= k < j ==> #[trigger] s[k] != '/'
}

/// A raw path that needs no encoding: plain characters only, and no segment that
/// is `.` or `..`.
pub open spec fn is_plain_path(s: Seq<char>) -> bool {
    &&& is_raw_path(s)
    &&& forall|i: int| 0 <= i < s.len() ==> is_plain_char(#[trigger] s[i])
    &&& forall|i: int, j: int| #[trigger]
        is_segment(s, i, j) ==> s.subrange(i, j) != seq!['.'] && s.subrange(i, j) != seq!['.', '.']
}

/// The raw text of the object path that `object_store::path::Path::from` makes
/// out of `text`.
pub uninterp spec fn encoded_path(text: Seq<char>) -> Seq<char>;

/// Two raw paths one after the other.
pub open spec fn joined_path(root: Seq<char>, location: Seq<char>) -> Seq<char> {
    if root.len() == 0 {
        location
    } else if location.len() == 0 {
        root
    } else {
        root.push('/') + location
    }
}

/// `s` without the slashes at its end.
pub open spec fn without_trailing_slashes(s: Seq<char>) -> Seq<char>
    decreases s.len(),
{
    if s.len() > 0 && s.last() == '/' {
        without_trailing_slashes(s.drop_last())
    } else {
        s
    }
}

/// `object_store::path::Path::from`: drops empty segments and percent-encodes
/// what must not stand in a segment. The result is named; it is a raw path, and a
/// plain path comes out as it went in.
#[verifier::external_body]
fn encode_path(text: &str) -> (r: String)
    ensures
        r@ == encoded_path(text@),
        is_raw_path(r@),
        is_plain_path(text@) ==> r@ == text@,
{
    String::from(object_store::path::Path::from(text))
}

/// The location of an object, held as its raw text.
#[derive(Debug, PartialEq, Eq, Hash)]
pub struct Path {
    raw: String,
}

impl View for Path {
    type V = Seq<char>;

    closed spec fn view(&self) -> Seq<char> {
        self.raw@
    }
}

impl Clone for Path {
    fn clone(&self) -> (r: Path)
        ensures
            r@ == self@,
    {
        proof {
            use_type_invariant(self);
        }
        Path { raw: self.raw.clone() }
    }
}

impl Path {
    #[verifier::type_invariant]
    spec fn raw_path(self) -> bool {
        is_raw_path(self.raw@)
    }

    /// The path of `text`: empty segments are dropped and characters that an
    /// object path must not hold are percent-encoded.
    pub fn from(text: &str) -> (r: Path)
        ensures
            r@ == encoded_path(text@),
            is_raw_path(r@),
            is_plain_path(text@) ==> r@ == text@,
    {
        Path { raw: encode_path(text) }
    }

    /// Takes `raw` as it stands, if it is a raw path.
    pub fn from_raw(raw: String) -> (r: Option<Path>)
        ensures
            r is Some <==> is_raw_path(raw@),
            r matches Some(p) ==> p@ == raw@,
    {
        let chars = crate::text::chars_of(raw.as_str());
        let len: usize = chars.len();
        if len == 0 {
            return Some(Path { raw });
        }
        if chars[0] == '/' || chars[len - 1] == '/' {
            return None;
        }
        let mut i: usize = 0;
        while i + 1 < len
            invariant
                chars@ == raw@,
                len == chars@.len(),
                len > 0,
                i < len,
                chars@[0] != '/',
                chars@.last() != '/',
                forall|k: int| 0 <= k < i && #[trigger] chars@[k] == '/' ==> chars@[k + 1] != '/',
            decreases len - i,
        {
            if chars[i] == '/' && chars[i + 1] == '/' {
                return None;
            }
            i = i + 1;
        }
        Some(Path { raw })
    }

    /// The raw text.
    pub fn as_str(&self) -> (r: &str)
        ensures
            r@ == self@,
            is_raw_path(self@),
    {
        proof {
            use_type_invariant(self);
        }
        self.raw.as_str()
    }

    /// Whether this is the root, the path without segments.
    pub fn is_root(&self) -> (r: bool)
        ensures
            r == (self@.len() == 0),
    {
        self.raw.as_str().is_empty()
    }

    /// Whether both paths have the same segments.
    pub fn same_as(&self, other: &Path) -> (r: bool)
        ensures
            r == (self@ == other@),
    {
        self.raw == other.raw
    }

    /// The segments of this path followed by those of `location`.
    pub fn join(&self, location: &Path) -> (r: Path)
        ensures
            r@ == joined_path(self@, location@),
    {
        proof {
            use_type_invariant(self);
            use_type_invariant(location);
        }
        if self.is_root() {
            return location.clone();
        }
        if location.is_root() {
            return self.clone();
        }
        let mut raw = self.raw.clone();
        proof {
            reveal_strlit("/");
        }
        raw.append("/");
        assert(raw@ =~= self@.push('/'));
        raw.append(location.raw.as_str());
        proof {
            lemma_joined_is_raw(self@, location@);
        }
        Path { raw }
    }
}

/// Joining keeps raw paths raw.
pub proof fn lemma_joined_is_raw(root: Seq<char>, location: Seq<char>)
    requires
        is_raw_path(root),
        is_raw_path(location),
    ensures
        is_raw_path(joined_path(root, location)),
{
    let s = joined_path(root, location);
    if root.len() > 0 && location.len() > 0 {
        assert(s[0] == root[0]);
        assert(s.last() == location.last());
        let n = root.len() as int;
        assert forall|i: int| 0 <= i < s.len() - 1 && #[trigger] s[i] == '/' implies s[i + 1] != '/' by {
            if i < n - 1 {
                assert(s[i] == root[i] && s[i + 1] == root[i + 1]);
            } else if i == n - 1 {
                assert(s[i] == root.last());
            } else if i == n {
                assert(s[i + 1] == location[0]);
            } else {
                assert(s[i] == location[i - n - 1] && s[i + 1] == location[i - n]);
            }
        }
    }
}

/// A joined path is the root, a slash and the location, where neither is empty, and else the
/// one that is not. It ends with the location and begins with the root.
pub proof fn lemma_joined_path(root: Seq<char>, location: Seq<char>)
    ensures
        ({
            let s = joined_path(root, location);
            &&& root.len() > 0 && location.len() > 0 ==> s == root + seq!['/'] + location
            &&& root.len() == 0 ==> s == location
            &&& location.len() == 0 ==> s == root
            &&& s.take(root.len() as int) == root
            &&& s.skip(s.len() - location.len()) == location
        }),
{
    let s = joined_path(root, location);
    assert(s.take(root.len() as int) =~= root);
    assert(s.skip(s.len() - location.len()) =~= location);
    if root.len() > 0 && location.len() > 0 {
        assert(s =~= root + seq!['/'] + location);
    }
}

/// Under one root, different locations have different paths, and joining three paths does not
/// depend on which two are joined first.
pub proof fn lemma_join_laws(root: Seq<char>, a: Seq<char>, b: Seq<char>)
    requires
        is_raw_path(a),
        is_raw_path(b),
    ensures
        joined_path(root, a) == joined_path(root, b) ==> a == b,
        joined_path(joined_path(root, a), b) == joined_path(root, joined_path(a, b)),
{
    lemma_joined_path(root, a);
    lemma_joined_path(root, b);
    if joined_path(root, a) == joined_path(root, b) {
        let s = joined_path(root, a);
        if root.len() > 0 && a.len() > 0 && b.len() > 0 {
            assert(s.len() == root.len() + 1 + a.len());
            assert(a =~= b);
        } else {
            assert(a.len() == b.len());
            assert(a =~= b);
        }
    }
    assert(joined_path(joined_path(root, a), b) =~= joined_path(root, joined_path(a, b)));
}

/// Taking the slashes off the end of a text leaves what stands in front of them: nothing but
/// slashes is taken, and none is left at the end.
pub proof fn lemma_without_trailing_slashes(s: Seq<char>, i: int)
    ensures
        ({
            let r = without_trailing_slashes(s);
            &&& r.len() <= s.len()
            &&& s.take(r.len() as int) == r
            &&& r.len() > 0 ==> r.last() != '/'
            &&& r.len() <= i < s.len() ==> s[i] == '/'
        }),
    decreases s.len(),
{
    if s.len() > 0 && s.last() == '/' {
        lemma_without_trailing_slashes(s.drop_last(), i);
        let r = without_trailing_slashes(s);
        assert(s.take(r.len() as int) =~= s.drop_last().take(r.len() as int));
    } else {
        assert(s.take(s.len() as int) =~= s);
    }
}

/// A text is a raw path exactly if it is empty or has no empty segment.
pub proof fn lemma_raw_path_has_no_empty_segment(s: Seq<char>)
    requires
        s.len() > 0,
    ensures
        is_raw_path(s) <==> (forall|i: int| !#[trigger] is_segment(s, i, i)),
{
    if is_raw_path(s) {
        assert forall|i: int| !#[trigger] is_segment(s, i, i) by {
            if is_segment(s, i, i) {
                if i == 0 {
                    assert(s[0] == '/');
                } else if i == s.len() {
                    assert(s[i - 1] == s.last());
                } else {
                    assert(s[i - 1] == '/' ==> s[i - 1 + 1] != '/');
                }
            }
        }
    }
    if forall|i: int| !#[trigger] is_segment(s, i, i) {
        assert(!is_segment(s, 0, 0));
        assert(!is_segment(s, s.len() as int, s.len() as int));
        assert forall|i: int| 0 <= i < s.len() - 1 && #[trigger] s[i] == '/' implies s[i + 1]
            != '/' by {
            assert(!is_segment(s, i + 1, i + 1));
        }
    }
}

} // verus!
