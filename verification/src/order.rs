//! Orders on the values that series and charts are keyed by.

use crate::calendar::Date;
use vstd::prelude::*;
use vstd::string::*;

verus! {

/// Values that can be laid out along an axis: a strict order.
pub trait Scale: Copy {
    /// Whether `self` comes strictly before `other` on the axis.
    spec fn lt(self, other: Self) -> bool;

    /// Whether `self` comes strictly before `other` on the axis.
    fn less(self, other: Self) -> (r: bool)
        ensures
            r == self.lt(other),
    ;

    /// Nothing comes before itself.
    proof fn lemma_irreflexive(a: Self)
        ensures
            !a.lt(a),
    ;

    /// What comes before something earlier comes before everything later.
    proof fn lemma_transitive(a: Self, b: Self, c: Self)
        requires
            a.lt(b),
            b.lt(c),
        ensures
            a.lt(c),
    ;
}

impl Scale for i32 {
    open spec fn lt(self, other: Self) -> bool {
        self < other
    }

    fn less(self, other: Self) -> (r: bool) {
        self < other
    }

    proof fn lemma_irreflexive(a: Self) {
    }

    proof fn lemma_transitive(a: Self, b: Self, c: Self) {
    }
}

impl Scale for usize {
    open spec fn lt(self, other: Self) -> bool {
        self < other
    }

    fn less(self, other: Self) -> (r: bool) {
        self < other
    }

    proof fn lemma_irreflexive(a: Self) {
    }

    proof fn lemma_transitive(a: Self, b: Self, c: Self) {
    }
}

impl Scale for Date {
    open spec fn lt(self, other: Self) -> bool {
        self.days < other.days
    }

    fn less(self, other: Self) -> (r: bool) {
        self.days < other.days
    }

    proof fn lemma_irreflexive(a: Self) {
    }

    proof fn lemma_transitive(a: Self, b: Self, c: Self) {
    }
}

/// Whether the texts agree in their first `at` characters and `a` then
/// ends, or goes on with a lesser character than `b`.
pub open spec fn text_before_at(a: Seq<char>, b: Seq<char>, at: int) -> bool {
    &&& 0 <= at <= a.len()
    &&& at <= b.len()
    &&& forall|j: int| 0 <= j < at ==> a[j] == b[j]
    &&& at < b.len()
    &&& at < a.len() ==> a[at] < b[at]
}

/// The order of the dictionary, character by character: `a` comes before
/// `b` if it is a proper beginning of `b`, or has the lesser character where
/// the two first differ.
pub open spec fn text_before(a: Seq<char>, b: Seq<char>) -> bool {
    exists|at: int| #[trigger] text_before_at(a, b, at)
}

proof fn lemma_text_order_from(a: Seq<char>, b: Seq<char>, n: int)
    requires
        0 <= n <= a.len(),
        n <= b.len(),
        forall|j: int| 0 <= j < n ==> a[j] == b[j],
    ensures
        text_before(a, b) || text_before(b, a) || a == b,
    decreases a.len() - n,
{
    if n == a.len() {
        if n == b.len() {
            assert(a =~= b);
        } else {
            assert(text_before_at(a, b, n));
        }
    } else if n == b.len() {
        assert(text_before_at(b, a, n));
    } else if a[n] != b[n] {
        if a[n] < b[n] {
            assert(text_before_at(a, b, n));
        } else {
            assert(text_before_at(b, a, n));
        }
    } else {
        lemma_text_order_from(a, b, n + 1);
    }
}

/// Values that can key a sorted series. A value stands for its key, and
/// key values are in a total order: any two of them are the same or one
/// comes before the other.
pub trait Key: Sized {
    /// What a value is as a key.
    type V;

    /// The key that the value stands for.
    spec fn key(&self) -> Self::V;

    /// Whether key `a` comes strictly before key `b`.
    spec fn before(a: Self::V, b: Self::V) -> bool;

    /// Whether the key of `self` comes strictly before that of `other`.
    fn precedes(&self, other: &Self) -> (r: bool)
        ensures
            r == Self::before(self.key(), other.key()),
    ;

    /// No key comes before itself.
    proof fn lemma_before_irreflexive(a: Self::V)
        ensures
            !Self::before(a, a),
    ;

    /// What comes before an earlier key comes before every later one.
    proof fn lemma_before_transitive(a: Self::V, b: Self::V, c: Self::V)
        requires
            Self::before(a, b),
            Self::before(b, c),
        ensures
            Self::before(a, c),
    ;

    /// Two keys are the same or one comes before the other.
    proof fn lemma_before_total(a: Self::V, b: Self::V)
        ensures
            Self::before(a, b) || Self::before(b, a) || a == b,
    ;
}

impl Key for i32 {
    type V = i32;

    open spec fn key(&self) -> i32 {
        *self
    }

    open spec fn before(a: i32, b: i32) -> bool {
        a < b
    }

    fn precedes(&self, other: &Self) -> (r: bool) {
        *self < *other
    }

    proof fn lemma_before_irreflexive(a: i32) {
    }

    proof fn lemma_before_transitive(a: i32, b: i32, c: i32) {
    }

    proof fn lemma_before_total(a: i32, b: i32) {
    }
}

impl Key for usize {
    type V = usize;

    open spec fn key(&self) -> usize {
        *self
    }

    open spec fn before(a: usize, b: usize) -> bool {
        a < b
    }

    fn precedes(&self, other: &Self) -> (r: bool) {
        *self < *other
    }

    proof fn lemma_before_irreflexive(a: usize) {
    }

    proof fn lemma_before_transitive(a: usize, b: usize, c: usize) {
    }

    proof fn lemma_before_total(a: usize, b: usize) {
    }
}

impl Key for Date {
    type V = Date;

    open spec fn key(&self) -> Date {
        *self
    }

    open spec fn before(a: Date, b: Date) -> bool {
        a.days < b.days
    }

    fn precedes(&self, other: &Self) -> (r: bool) {
        self.days < other.days
    }

    proof fn lemma_before_irreflexive(a: Date) {
    }

    proof fn lemma_before_transitive(a: Date, b: Date, c: Date) {
    }

    proof fn lemma_before_total(a: Date, b: Date) {
    }
}

/// Labels are keyed by their characters, in the order of the dictionary.
impl Key for String {
    type V = Seq<char>;

    open spec fn key(&self) -> Seq<char> {
        self@
    }

    open spec fn before(a: Seq<char>, b: Seq<char>) -> bool {
        text_before(a, b)
    }

    fn precedes(&self, other: &Self) -> (r: bool) {
        let a: &str = self.as_str();
        let b: &str = other.as_str();
        let a_len: usize = a.unicode_len();
        let b_len: usize = b.unicode_len();
        let mut at: usize = 0;
        while at < a_len && at < b_len
            invariant
                at <= a_len,
                at <= b_len,
                a@ == self@,
                b@ == other@,
                a_len == a@.len(),
                b_len == b@.len(),
                forall|j: int| 0 <= j < at ==> a@[j] == b@[j],
            decreases a_len - at,
        {
            let x: char = a.get_char(at);
            let y: char = b.get_char(at);
            if x != y {
                proof {
                    if x < y {
                        assert(text_before_at(a@, b@, at as int));
                    } else {
                        assert forall|i: int| !#[trigger] text_before_at(a@, b@, i) by {
                            if text_before_at(a@, b@, i) {
                                if i > at {
                                    assert(a@[at as int] == b@[at as int]);
                                }
                            }
                        }
                    }
                }
                return x < y;
            }
            at += 1;
        }
        proof {
            if a_len < b_len {
                assert(text_before_at(a@, b@, at as int));
            } else {
                assert forall|i: int| !#[trigger] text_before_at(a@, b@, i) by {}
            }
        }
        a_len < b_len
    }

    proof fn lemma_before_irreflexive(a: Seq<char>) {
    }

    proof fn lemma_before_transitive(a: Seq<char>, b: Seq<char>, c: Seq<char>) {
        let i = choose|i: int| #[trigger] text_before_at(a, b, i);
        let j = choose|j: int| #[trigger] text_before_at(b, c, j);
        if i <= j {
            if i < a.len() && i == j {
                assert(a[i] < c[i]);
            }
            assert forall|k: int| 0 <= k < i implies a[k] == c[k] by {
                assert(a[k] == b[k] && b[k] == c[k]);
            }
            if i < j {
                assert(b[i] == c[i]);
            }
            assert(text_before_at(a, c, i));
        } else {
            assert(a[j] == b[j]);
            assert forall|k: int| 0 <= k < j implies a[k] == c[k] by {
                assert(a[k] == b[k] && b[k] == c[k]);
            }
            assert(text_before_at(a, c, j));
        }
    }

    proof fn lemma_before_total(a: Seq<char>, b: Seq<char>) {
        lemma_text_order_from(a, b, 0);
    }
}

} // verus!
