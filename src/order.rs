//! The total order that the trees keep their values in.
use vstd::prelude::*;

verus! {

/// A value that a tree can hold: cheap to duplicate, and totally ordered by
/// `compare`, which agrees with the strict order `less` used in specifications.
pub trait TreeValue: Copy + Sized {
    /// `self` comes strictly before `other`.
    spec fn less(self, other: Self) -> bool;

    /// No value comes before itself.
    proof fn lemma_irreflexive(x: Self)
        ensures
            !x.less(x),
    ;

    /// The order is transitive.
    proof fn lemma_transitive(x: Self, y: Self, z: Self)
        requires
            x.less(y),
            y.less(z),
        ensures
            x.less(z),
    ;

    /// Any two values are equal or one comes before the other.
    proof fn lemma_total(x: Self, y: Self)
        ensures
            x.less(y) || x == y || y.less(x),
    ;

    /// Three-way comparison.
    fn compare(&self, other: &Self) -> (r: core::cmp::Ordering)
        ensures
            (r == core::cmp::Ordering::Less) == self.less(*other),
            (r == core::cmp::Ordering::Equal) == (*self == *other),
            (r == core::cmp::Ordering::Greater) == other.less(*self),
    ;
}

/// `x` comes before `y` or equals it.
pub open spec fn at_most<T: TreeValue>(x: T, y: T) -> bool {
    x.less(y) || x == y
}

/// Every element of `s` comes strictly before `v`.
pub open spec fn all_below<T: TreeValue>(s: Seq<T>, v: T) -> bool {
    forall|x: T| #[trigger] s.contains(x) ==> x.less(v)
}

/// Every element of `s` comes strictly after `v`.
pub open spec fn all_above<T: TreeValue>(s: Seq<T>, v: T) -> bool {
    forall|x: T| #[trigger] s.contains(x) ==> v.less(x)
}

/// `s` is strictly increasing, so it holds no value twice.
pub open spec fn is_ascending<T: TreeValue>(s: Seq<T>) -> bool {
    forall|i: int, j: int| #![trigger s[i], s[j]] 0 <= i < j < s.len() ==> s[i].less(s[j])
}

/// `n` copies of `v`.
pub open spec fn copies<T>(v: T, n: nat) -> Seq<T> {
    Seq::new(n, |k: int| v)
}

/// `s` is increasing, repeated values standing side by side.
pub open spec fn is_non_decreasing<T: TreeValue>(s: Seq<T>) -> bool {
    forall|i: int, j: int| #![trigger s[i], s[j]] 0 <= i < j < s.len() ==> at_most(s[i], s[j])
}

/// A value before another is not also after it, nor equal to it.
pub proof fn lemma_asymmetric<T: TreeValue>(x: T, y: T)
    requires
        x.less(y),
    ensures
        !y.less(x),
        x != y,
{
    if y.less(x) {
        T::lemma_transitive(x, y, x);
        T::lemma_irreflexive(x);
    }
    T::lemma_irreflexive(x);
}

/// An ascending sequence holds no value twice.
pub proof fn lemma_ascending_no_duplicates<T: TreeValue>(s: Seq<T>)
    requires
        is_ascending(s),
    ensures
        s.no_duplicates(),
{
    assert forall|i: int, j: int| 0 <= i < s.len() && 0 <= j < s.len() && i != j implies s[i]
        != s[j] by {
        if i < j {
            lemma_asymmetric(s[i], s[j]);
        } else {
            lemma_asymmetric(s[j], s[i]);
        }
    }
}

/// Everything below `v` is below any value after `v`.
pub proof fn lemma_below_trans<T: TreeValue>(s: Seq<T>, v: T, w: T)
    requires
        all_below(s, v),
        v.less(w),
    ensures
        all_below(s, w),
{
    assert forall|x: T| #[trigger] s.contains(x) implies x.less(w) by {
        T::lemma_transitive(x, v, w);
    }
}

/// Everything above `v` is above any value before `v`.
pub proof fn lemma_above_trans<T: TreeValue>(s: Seq<T>, v: T, w: T)
    requires
        all_above(s, v),
        w.less(v),
    ensures
        all_above(s, w),
{
    assert forall|x: T| #[trigger] s.contains(x) implies w.less(x) by {
        T::lemma_transitive(w, v, x);
    }
}

/// A value below every element of `s` is not in `s`.
pub proof fn lemma_not_in_above<T: TreeValue>(s: Seq<T>, v: T, x: T)
    requires
        all_above(s, v),
        at_most(x, v),
    ensures
        !s.contains(x),
{
    if s.contains(x) {
        lemma_asymmetric(v, x);
    }
}

/// A value above every element of `s` is not in `s`.
pub proof fn lemma_not_in_below<T: TreeValue>(s: Seq<T>, v: T, x: T)
    requires
        all_below(s, v),
        at_most(v, x),
    ensures
        !s.contains(x),
{
    if s.contains(x) {
        lemma_asymmetric(x, v);
    }
}

/// Two ascending runs joined around a value that separates them stay ascending.
pub proof fn lemma_ascending_join<T: TreeValue>(a: Seq<T>, v: T, b: Seq<T>)
    requires
        is_ascending(a),
        is_ascending(b),
        all_below(a, v),
        all_above(b, v),
    ensures
        is_ascending(a + seq![v] + b),
{
    let s = a + seq![v] + b;
    assert forall|i: int, j: int| #![trigger s[i], s[j]] 0 <= i < j < s.len() implies s[i].less(
        s[j],
    ) by {
        if i < a.len() {
            assert(a.contains(a[i]));
            if j > a.len() {
                assert(b.contains(b[j - a.len() - 1]));
                T::lemma_transitive(a[i], v, b[j - a.len() - 1]);
            }
        } else if i == a.len() {
            assert(b.contains(b[j - a.len() - 1]));
        }
    }
}

/// Two non-decreasing runs joined around copies of a value that separates them stay
/// non-decreasing.
pub proof fn lemma_non_decreasing_join<T: TreeValue>(a: Seq<T>, v: T, n: nat, b: Seq<T>)
    requires
        is_non_decreasing(a),
        is_non_decreasing(b),
        all_below(a, v),
        all_above(b, v),
    ensures
        is_non_decreasing(a + copies(v, n) + b),
{
    let m = copies(v, n);
    let s = a + m + b;
    let p = a.len() + n;
    assert forall|i: int, j: int| #![trigger s[i], s[j]] 0 <= i < j < s.len() implies at_most(
        s[i],
        s[j],
    ) by {
        if i < a.len() {
            assert(a.contains(a[i]));
            if j >= p {
                assert(b.contains(b[j - p]));
                T::lemma_transitive(a[i], v, b[j - p]);
            }
        } else if i < p {
            if j >= p {
                assert(b.contains(b[j - p]));
            }
        }
    }
}

impl TreeValue for u8 {
    open spec fn less(self, other: Self) -> bool {
        self < other
    }

    /// No value comes before itself.
    proof fn lemma_irreflexive(x: Self) {
    }

    proof fn lemma_transitive(x: Self, y: Self, z: Self) {
    }

    proof fn lemma_total(x: Self, y: Self) {
    }

    fn compare(&self, other: &Self) -> (r: core::cmp::Ordering) {
        if *self < *other {
            core::cmp::Ordering::Less
        } else if *self == *other {
            core::cmp::Ordering::Equal
        } else {
            core::cmp::Ordering::Greater
        }
    }
}

impl TreeValue for u16 {
    open spec fn less(self, other: Self) -> bool {
        self < other
    }

    /// No value comes before itself.
    proof fn lemma_irreflexive(x: Self) {
    }

    proof fn lemma_transitive(x: Self, y: Self, z: Self) {
    }

    proof fn lemma_total(x: Self, y: Self) {
    }

    fn compare(&self, other: &Self) -> (r: core::cmp::Ordering) {
        if *self < *other {
            core::cmp::Ordering::Less
        } else if *self == *other {
            core::cmp::Ordering::Equal
        } else {
            core::cmp::Ordering::Greater
        }
    }
}

impl TreeValue for u32 {
    open spec fn less(self, other: Self) -> bool {
        self < other
    }

    /// No value comes before itself.
    proof fn lemma_irreflexive(x: Self) {
    }

    proof fn lemma_transitive(x: Self, y: Self, z: Self) {
    }

    proof fn lemma_total(x: Self, y: Self) {
    }

    fn compare(&self, other: &Self) -> (r: core::cmp::Ordering) {
        if *self < *other {
            core::cmp::Ordering::Less
        } else if *self == *other {
            core::cmp::Ordering::Equal
        } else {
            core::cmp::Ordering::Greater
        }
    }
}

impl TreeValue for u64 {
    open spec fn less(self, other: Self) -> bool {
        self < other
    }

    /// No value comes before itself.
    proof fn lemma_irreflexive(x: Self) {
    }

    proof fn lemma_transitive(x: Self, y: Self, z: Self) {
    }

    proof fn lemma_total(x: Self, y: Self) {
    }

    fn compare(&self, other: &Self) -> (r: core::cmp::Ordering) {
        if *self < *other {
            core::cmp::Ordering::Less
        } else if *self == *other {
            core::cmp::Ordering::Equal
        } else {
            core::cmp::Ordering::Greater
        }
    }
}

impl TreeValue for usize {
    open spec fn less(self, other: Self) -> bool {
        self < other
    }

    /// No value comes before itself.
    proof fn lemma_irreflexive(x: Self) {
    }

    proof fn lemma_transitive(x: Self, y: Self, z: Self) {
    }

    proof fn lemma_total(x: Self, y: Self) {
    }

    fn compare(&self, other: &Self) -> (r: core::cmp::Ordering) {
        if *self < *other {
            core::cmp::Ordering::Less
        } else if *self == *other {
            core::cmp::Ordering::Equal
        } else {
            core::cmp::Ordering::Greater
        }
    }
}

impl TreeValue for i8 {
    open spec fn less(self, other: Self) -> bool {
        self < other
    }

    /// No value comes before itself.
    proof fn lemma_irreflexive(x: Self) {
    }

    proof fn lemma_transitive(x: Self, y: Self, z: Self) {
    }

    proof fn lemma_total(x: Self, y: Self) {
    }

    fn compare(&self, other: &Self) -> (r: core::cmp::Ordering) {
        if *self < *other {
            core::cmp::Ordering::Less
        } else if *self == *other {
            core::cmp::Ordering::Equal
        } else {
            core::cmp::Ordering::Greater
        }
    }
}

impl TreeValue for i16 {
    open spec fn less(self, other: Self) -> bool {
        self < other
    }

    /// No value comes before itself.
    proof fn lemma_irreflexive(x: Self) {
    }

    proof fn lemma_transitive(x: Self, y: Self, z: Self) {
    }

    proof fn lemma_total(x: Self, y: Self) {
    }

    fn compare(&self, other: &Self) -> (r: core::cmp::Ordering) {
        if *self < *other {
            core::cmp::Ordering::Less
        } else if *self == *other {
            core::cmp::Ordering::Equal
        } else {
            core::cmp::Ordering::Greater
        }
    }
}

impl TreeValue for i32 {
    open spec fn less(self, other: Self) -> bool {
        self < other
    }

    /// No value comes before itself.
    proof fn lemma_irreflexive(x: Self) {
    }

    proof fn lemma_transitive(x: Self, y: Self, z: Self) {
    }

    proof fn lemma_total(x: Self, y: Self) {
    }

    fn compare(&self, other: &Self) -> (r: core::cmp::Ordering) {
        if *self < *other {
            core::cmp::Ordering::Less
        } else if *self == *other {
            core::cmp::Ordering::Equal
        } else {
            core::cmp::Ordering::Greater
        }
    }
}

impl TreeValue for i64 {
    open spec fn less(self, other: Self) -> bool {
        self < other
    }

    /// No value comes before itself.
    proof fn lemma_irreflexive(x: Self) {
    }

    proof fn lemma_transitive(x: Self, y: Self, z: Self) {
    }

    proof fn lemma_total(x: Self, y: Self) {
    }

    fn compare(&self, other: &Self) -> (r: core::cmp::Ordering) {
        if *self < *other {
            core::cmp::Ordering::Less
        } else if *self == *other {
            core::cmp::Ordering::Equal
        } else {
            core::cmp::Ordering::Greater
        }
    }
}

impl TreeValue for isize {
    open spec fn less(self, other: Self) -> bool {
        self < other
    }

    /// No value comes before itself.
    proof fn lemma_irreflexive(x: Self) {
    }

    proof fn lemma_transitive(x: Self, y: Self, z: Self) {
    }

    proof fn lemma_total(x: Self, y: Self) {
    }

    fn compare(&self, other: &Self) -> (r: core::cmp::Ordering) {
        if *self < *other {
            core::cmp::Ordering::Less
        } else if *self == *other {
            core::cmp::Ordering::Equal
        } else {
            core::cmp::Ordering::Greater
        }
    }
}

impl TreeValue for char {
    open spec fn less(self, other: Self) -> bool {
        (self as u32) < (other as u32)
    }

    /// No value comes before itself.
    proof fn lemma_irreflexive(x: Self) {
    }

    proof fn lemma_transitive(x: Self, y: Self, z: Self) {
    }

    proof fn lemma_total(x: Self, y: Self) {
        vstd::utf8::char_u32_cast(x, x as u32);
        vstd::utf8::char_u32_cast(y, y as u32);
    }

    fn compare(&self, other: &Self) -> (r: core::cmp::Ordering) {
        let a: u32 = #[verifier::truncate] (*self as u32);
        let b: u32 = #[verifier::truncate] (*other as u32);
        proof {
            vstd::utf8::char_u32_cast(*self, a);
            vstd::utf8::char_u32_cast(*other, b);
        }
        if a < b {
            core::cmp::Ordering::Less
        } else if a == b {
            core::cmp::Ordering::Equal
        } else {
            core::cmp::Ordering::Greater
        }
    }
}

} // verus!
