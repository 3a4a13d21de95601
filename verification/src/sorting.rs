//! Sorting by merging, for any type with a total order.

use crate::text;
use vstd::prelude::*;

verus! {

/// A type with a total order.
pub trait Ranked: Sized {
    /// Whether this value may stand before `other`.
    spec fn precedes(self, other: Self) -> bool;

    /// Any two values stand in the order one way or the other.
    proof fn precedes_is_total(a: Self, b: Self)
        ensures
            a.precedes(b) || b.precedes(a),
    ;

    /// The order is transitive.
    proof fn precedes_is_transitive(a: Self, b: Self, c: Self)
        requires
            a.precedes(b),
            b.precedes(c),
        ensures
            a.precedes(c),
    ;

    /// Whether this value may stand before `other`.
    fn may_precede(&self, other: &Self) -> (r: bool)
        ensures
            r == self.precedes(*other),
    ;
}

impl Ranked for u64 {
    open spec fn precedes(self, other: u64) -> bool {
        self <= other
    }

    proof fn precedes_is_total(a: u64, b: u64) {
    }

    proof fn precedes_is_transitive(a: u64, b: u64, c: u64) {
    }

    fn may_precede(&self, other: &u64) -> (r: bool) {
        *self <= *other
    }
}

impl Ranked for usize {
    open spec fn precedes(self, other: usize) -> bool {
        self <= other
    }

    proof fn precedes_is_total(a: usize, b: usize) {
    }

    proof fn precedes_is_transitive(a: usize, b: usize, c: usize) {
    }

    fn may_precede(&self, other: &usize) -> (r: bool) {
        *self <= *other
    }
}

/// Alphabetical order by code points.
pub open spec fn alphabetical(a: Seq<char>, b: Seq<char>) -> bool
    decreases a.len(),
{
    if a.len() == 0 {
        true
    } else if b.len() == 0 {
        false
    } else if a[0] != b[0] {
        a[0] < b[0]
    } else {
        alphabetical(a.skip(1), b.skip(1))
    }
}

proof fn lemma_alphabetical_total(a: Seq<char>, b: Seq<char>)
    ensures
        alphabetical(a, b) || alphabetical(b, a),
    decreases a.len(),
{
    if a.len() > 0 && b.len() > 0 && a[0] == b[0] {
        lemma_alphabetical_total(a.skip(1), b.skip(1));
    }
}

proof fn lemma_alphabetical_transitive(a: Seq<char>, b: Seq<char>, c: Seq<char>)
    requires
        alphabetical(a, b),
        alphabetical(b, c),
    ensures
        alphabetical(a, c),
    decreases a.len(),
{
    if a.len() > 0 && b.len() > 0 && c.len() > 0 && a[0] == b[0] && b[0] == c[0] {
        lemma_alphabetical_transitive(a.skip(1), b.skip(1), c.skip(1));
    }
}

/// What two texts begin with in common does not count for their order.
pub proof fn lemma_alphabetical_prefix(p: Seq<char>, a: Seq<char>, b: Seq<char>)
    ensures
        alphabetical(p + a, p + b) == alphabetical(a, b),
    decreases p.len(),
{
    if p.len() == 0 {
        assert(p + a =~= a);
        assert(p + b =~= b);
    } else {
        assert((p + a).skip(1) =~= p.skip(1) + a);
        assert((p + b).skip(1) =~= p.skip(1) + b);
        lemma_alphabetical_prefix(p.skip(1), a, b);
    }
}

/// What follows two different texts of one length does not count for their order.
proof fn lemma_alphabetical_suffix(a: Seq<char>, b: Seq<char>, u: Seq<char>, v: Seq<char>)
    requires
        a.len() == b.len(),
        a != b,
        alphabetical(a, b),
    ensures
        alphabetical(a + u, b + v),
    decreases a.len(),
{
    if a.len() == 0 {
        assert(a =~= b);
    } else if a[0] == b[0] {
        assert(a.skip(1) != b.skip(1)) by {
            if a.skip(1) == b.skip(1) {
                assert(a =~= seq![a[0]] + a.skip(1));
                assert(b =~= seq![b[0]] + b.skip(1));
            }
        }
        lemma_alphabetical_suffix(a.skip(1), b.skip(1), u, v);
        assert((a + u).skip(1) =~= a.skip(1) + u);
        assert((b + v).skip(1) =~= b.skip(1) + v);
    }
}

/// Numerals of one length stand in the alphabet as their numbers do.
pub proof fn lemma_digits_in_order(a: Seq<char>, b: Seq<char>)
    requires
        a.len() == b.len(),
        text::all_digits(a),
        text::all_digits(b),
        text::digits_value(a) <= text::digits_value(b),
    ensures
        alphabetical(a, b),
        text::digits_value(a) == text::digits_value(b) ==> a == b,
    decreases a.len(),
{
    if a.len() == 0 {
        assert(a =~= b);
    } else {
        let x = a.drop_last();
        let y = b.drop_last();
        assert(text::is_digit(a[a.len() - 1]));
        assert(text::is_digit(b[b.len() - 1]));
        assert forall|i: int| 0 <= i < x.len() implies text::is_digit(#[trigger] x[i])
            && text::is_digit(y[i]) by {
            assert(text::is_digit(a[i]));
            assert(text::is_digit(b[i]));
        }
        assert(text::all_digits(y)) by {
            assert forall|i: int| 0 <= i < y.len() implies text::is_digit(#[trigger] y[i]) by {
                assert(text::is_digit(b[i]));
            }
        }
        lemma_digits_in_order(x, y);
        assert(a =~= x + seq![a.last()]);
        assert(b =~= y + seq![b.last()]);
        if x == y {
            lemma_alphabetical_prefix(x, seq![a.last()], seq![b.last()]);
            reveal_with_fuel(alphabetical, 2);
        } else {
            lemma_alphabetical_suffix(x, y, seq![a.last()], seq![b.last()]);
        }
    }
}

/// Whether `a` stands before `b` in the alphabet, or is the same text.
fn is_alphabetical(a: &str, b: &str) -> (r: bool)
    ensures
        r == alphabetical(a@, b@),
{
    let x = text::chars_of(a);
    let y = text::chars_of(b);
    let mut i: usize = 0;
    proof {
        assert(a@.skip(0) =~= a@);
        assert(b@.skip(0) =~= b@);
    }
    while i < x.len() && i < y.len() && x[i] == y[i]
        invariant
            x@ == a@,
            y@ == b@,
            i <= x@.len(),
            i <= y@.len(),
            alphabetical(a@, b@) == alphabetical(a@.skip(i as int), b@.skip(i as int)),
        decreases x@.len() - i,
    {
        proof {
            assert(a@.skip(i as int).skip(1) =~= a@.skip(i + 1));
            assert(b@.skip(i as int).skip(1) =~= b@.skip(i + 1));
        }
        i = i + 1;
    }
    if i == x.len() {
        true
    } else if i == y.len() {
        false
    } else {
        x[i] < y[i]
    }
}

impl Ranked for String {
    open spec fn precedes(self, other: String) -> bool {
        alphabetical(self@, other@)
    }

    proof fn precedes_is_total(a: String, b: String) {
        lemma_alphabetical_total(a@, b@);
    }

    proof fn precedes_is_transitive(a: String, b: String, c: String) {
        lemma_alphabetical_transitive(a@, b@, c@);
    }

    fn may_precede(&self, other: &String) -> (r: bool) {
        is_alphabetical(self.as_str(), other.as_str())
    }
}

/// Every value may stand before those behind it.
pub open spec fn is_sorted<T: Ranked>(s: Seq<T>) -> bool {
    forall|i: int, j: int|
        0 <= i < j < s.len() ==> (#[trigger] s[i]).precedes(#[trigger] s[j])
}

/// Every value may stand before those in front of it.
spec fn is_descending<T: Ranked>(s: Seq<T>) -> bool {
    forall|i: int, j: int|
        0 <= i < j < s.len() ==> (#[trigger] s[j]).precedes(#[trigger] s[i])
}

/// Every value of `a` may stand before every value of `b`.
spec fn all_precede<T: Ranked>(a: Seq<T>, b: Seq<T>) -> bool {
    forall|i: int, j: int|
        0 <= i < a.len() && 0 <= j < b.len() ==> (#[trigger] a[i]).precedes(#[trigger] b[j])
}

/// What the last value of a sorted sequence precedes, all its values precede.
proof fn lemma_last_is_greatest<T: Ranked>(s: Seq<T>, x: T)
    requires
        is_sorted(s),
        s.len() > 0 ==> s.last().precedes(x),
    ensures
        all_precede(s, seq![x]),
{
    assert forall|i: int, j: int| 0 <= i < s.len() && 0 <= j < 1 implies (
    #[trigger] s[i]).precedes(#[trigger] seq![x][j]) by {
        if i < s.len() - 1 {
            T::precedes_is_transitive(s[i], s.last(), x);
        }
    }
}

/// A value that goes from the end of one sequence to that of another stays among them.
proof fn lemma_move_keeps_values<T>(from: Seq<T>, to: Seq<T>, x: T)
    ensures
        to.push(x).to_multiset().add(from.to_multiset()) == to.to_multiset().add(
            from.push(x).to_multiset(),
        ),
{
    from.to_multiset_ensures();
    to.to_multiset_ensures();
    assert(to.push(x).to_multiset().add(from.to_multiset()) =~= to.to_multiset().add(
        from.push(x).to_multiset(),
    ));
}

/// The values back to front.
fn reversed<T: Ranked>(v: Vec<T>) -> (r: Vec<T>)
    requires
        is_descending(v@),
    ensures
        is_sorted(r@),
        r@.to_multiset() == v@.to_multiset(),
        r@.len() == v@.len(),
{
    broadcast use vstd::seq_lib::group_to_multiset_ensures;

    let ghost all = v@;
    let mut rest = v;
    let mut out: Vec<T> = Vec::new();
    assert(out@.to_multiset().add(rest@.to_multiset()) =~= all.to_multiset());
    while rest.len() > 0
        invariant
            is_sorted(out@),
            is_descending(rest@),
            all_precede(out@, rest@),
            out@.to_multiset().add(rest@.to_multiset()) == all.to_multiset(),
            out@.len() + rest@.len() == all.len(),
        decreases rest@.len(),
    {
        let ghost before = rest@;
        if let Some(x) = rest.pop() {
            proof {
                assert(before =~= rest@.push(x));
                lemma_move_keeps_values(rest@, out@, x);
            }
            out.push(x);
        }
    }
    assert(rest@ =~= Seq::<T>::empty());
    assert(out@.to_multiset() =~= all.to_multiset());
    out
}

/// The values of both, in order. The greatest ones are taken out first.
fn merged<T: Ranked>(a: Vec<T>, b: Vec<T>) -> (r: Vec<T>)
    requires
        is_sorted(a@),
        is_sorted(b@),
        a@.len() + b@.len() <= usize::MAX,
    ensures
        is_sorted(r@),
        r@.to_multiset() == a@.to_multiset().add(b@.to_multiset()),
        r@.len() == a@.len() + b@.len(),
{
    broadcast use vstd::seq_lib::group_to_multiset_ensures;

    let ghost all = a@.to_multiset().add(b@.to_multiset());
    let ghost count = a@.len() + b@.len();
    let mut a = a;
    let mut b = b;
    let mut out: Vec<T> = Vec::new();
    assert(out@.to_multiset().add(a@.to_multiset()).add(b@.to_multiset()) =~= all);
    while a.len() + b.len() > 0
        invariant
            is_sorted(a@),
            is_sorted(b@),
            is_descending(out@),
            all_precede(a@, out@),
            all_precede(b@, out@),
            out@.to_multiset().add(a@.to_multiset()).add(b@.to_multiset()) == all,
            out@.len() + a@.len() + b@.len() == count,
            count <= usize::MAX,
        decreases a@.len() + b@.len(),
    {
        let ghost left = a@;
        let ghost right = b@;
        let from_right = if a.len() == 0 {
            true
        } else if b.len() == 0 {
            false
        } else {
            a[a.len() - 1].may_precede(&b[b.len() - 1])
        };
        let taken = if from_right {
            b.pop()
        } else {
            a.pop()
        };
        if let Some(x) = taken {
            proof {
                if left.len() > 0 && right.len() > 0 {
                    T::precedes_is_total(left.last(), right.last());
                }
                if from_right {
                    assert(right =~= b@.push(x));
                    b@.to_multiset_ensures();
                    lemma_last_is_greatest(left, x);
                } else {
                    assert(left =~= a@.push(x));
                    a@.to_multiset_ensures();
                    lemma_last_is_greatest(right, x);
                }
                assert(seq![x][0] == x);
                out@.to_multiset_ensures();
            }
            out.push(x);
            assert(out@.to_multiset().add(a@.to_multiset()).add(b@.to_multiset()) =~= all);
        }
    }
    assert(a@ =~= Seq::<T>::empty());
    assert(b@ =~= Seq::<T>::empty());
    assert(out@.to_multiset() =~= all);
    reversed(out)
}

/// The same values as in `v`, in order.
pub fn sorted<T: Ranked>(v: Vec<T>) -> (r: Vec<T>)
    ensures
        is_sorted(r@),
        r@.to_multiset() == v@.to_multiset(),
        r@.len() == v@.len(),
    decreases v@.len(),
{
    broadcast use vstd::seq_lib::group_to_multiset_ensures;

    if v.len() <= 1 {
        return v;
    }
    let ghost all = v@;
    let half: usize = v.len() / 2;
    let mut front = v;
    let mut back: Vec<T> = Vec::new();
    assert(back@.to_multiset().add(front@.to_multiset()) =~= all.to_multiset());
    while front.len() > half
        invariant
            half <= front@.len(),
            back@.to_multiset().add(front@.to_multiset()) == all.to_multiset(),
            back@.len() + front@.len() == all.len(),
        decreases front@.len(),
    {
        let ghost before = front@;
        if let Some(x) = front.pop() {
            proof {
                assert(before =~= front@.push(x));
                lemma_move_keeps_values(front@, back@, x);
            }
            back.push(x);
        }
    }
    assert(front@.to_multiset().add(back@.to_multiset()) =~= all.to_multiset());
    merged(sorted(front), sorted(back))
}

/// Of two texts the first stands before the second exactly if the second begins with it, or the
/// first is the smaller one at the first place at which they differ.
pub proof fn lemma_alphabetical_by_first_difference(a: Seq<char>, b: Seq<char>, i: int)
    requires
        0 <= i <= a.len(),
        i <= b.len(),
        a.take(i) == b.take(i),
        i < a.len() && i < b.len() ==> a[i] != b[i],
    ensures
        alphabetical(a, b) <==> i == a.len() || (i < b.len() && a[i] < b[i]),
{
    assert(a =~= a.take(i) + a.skip(i));
    assert(b =~= b.take(i) + b.skip(i));
    lemma_alphabetical_prefix(a.take(i), a.skip(i), b.skip(i));
}

/// Texts that stand before each other are the same.
pub proof fn lemma_alphabetical_antisymmetric(a: Seq<char>, b: Seq<char>)
    requires
        alphabetical(a, b),
        alphabetical(b, a),
    ensures
        a == b,
    decreases a.len(),
{
    if a.len() > 0 && b.len() > 0 {
        lemma_alphabetical_antisymmetric(a.skip(1), b.skip(1));
        assert(a =~= seq![a[0]] + a.skip(1));
        assert(b =~= seq![b[0]] + b.skip(1));
    } else {
        assert(a =~= b);
    }
}

/// Sorted numbers do not get smaller.
pub proof fn lemma_sorted_numbers(s: Seq<u64>, t: Seq<usize>, i: int, j: int)
    requires
        is_sorted(s),
        is_sorted(t),
        0 <= i < j,
    ensures
        j < s.len() ==> s[i] <= s[j],
        j < t.len() ==> t[i] <= t[j],
{
    if j < s.len() {
        assert(s[i].precedes(s[j]));
    }
    if j < t.len() {
        assert(t[i].precedes(t[j]));
    }
}

} // verus!
