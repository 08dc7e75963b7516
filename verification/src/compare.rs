use vstd::prelude::*;
use core::cmp::Ordering;

verus! {

/// A comparison strategy over `T`: a three-way total preorder whose `Equal`
/// classes are the identity of elements stored in the ordered collections of
/// this crate.
///
/// Implementations must supply a mathematical comparison (`cmp_spec`), an
/// executable comparison agreeing with it (`compare`), and proofs of the
/// order laws (reflexivity, antisymmetry, transitivity).
pub trait Comparator<T>: Sized {
    /// The mathematical three-way comparison this strategy decides.
    spec fn cmp_spec(&self, a: T, b: T) -> Ordering;

    /// Executable comparison; agrees with `cmp_spec`.
    fn compare(&self, a: &T, b: &T) -> (r: Ordering)
        ensures
            r == self.cmp_spec(*a, *b),
    ;

    /// Every value is equivalent to itself.
    proof fn lemma_reflexive(&self, a: T)
        ensures
            self.cmp_spec(a, a) == Ordering::Equal,
    ;

    /// Swapping the arguments flips `Less` and `Greater` and keeps `Equal`.
    proof fn lemma_antisymmetric(&self, a: T, b: T)
        ensures
            (self.cmp_spec(a, b) == Ordering::Less) <==> (self.cmp_spec(b, a)
                == Ordering::Greater),
            (self.cmp_spec(a, b) == Ordering::Equal) ==> (self.cmp_spec(b, a)
                == Ordering::Equal),
    ;

    /// `Less` and `Equal` compose transitively.
    proof fn lemma_transitive(&self, a: T, b: T, c: T)
        ensures
            self.cmp_spec(a, b) == Ordering::Less && self.cmp_spec(b, c) == Ordering::Less
                ==> self.cmp_spec(a, c) == Ordering::Less,
            self.cmp_spec(a, b) == Ordering::Less && self.cmp_spec(b, c) == Ordering::Equal
                ==> self.cmp_spec(a, c) == Ordering::Less,
            self.cmp_spec(a, b) == Ordering::Equal && self.cmp_spec(b, c) == Ordering::Less
                ==> self.cmp_spec(a, c) == Ordering::Less,
            self.cmp_spec(a, b) == Ordering::Equal && self.cmp_spec(b, c) == Ordering::Equal
                ==> self.cmp_spec(a, c) == Ordering::Equal,
    ;
}

/// The natural ascending order of the primitive integer types.
#[derive(Clone, Copy, PartialEq, Eq, Structural)]
pub struct NaturalOrd;

impl Default for NaturalOrd {
    fn default() -> (r: Self)
        ensures
            r == NaturalOrd,
    {
        NaturalOrd
    }
}

impl Comparator<i32> for NaturalOrd {
    open spec fn cmp_spec(&self, a: i32, b: i32) -> Ordering {
        if a < b {
            Ordering::Less
        } else if a == b {
            Ordering::Equal
        } else {
            Ordering::Greater
        }
    }

    fn compare(&self, a: &i32, b: &i32) -> (r: Ordering) {
        if *a < *b {
            Ordering::Less
        } else if *a == *b {
            Ordering::Equal
        } else {
            Ordering::Greater
        }
    }

    proof fn lemma_reflexive(&self, a: i32) {
    }

    proof fn lemma_antisymmetric(&self, a: i32, b: i32) {
    }

    proof fn lemma_transitive(&self, a: i32, b: i32, c: i32) {
    }
}

impl Comparator<i64> for NaturalOrd {
    open spec fn cmp_spec(&self, a: i64, b: i64) -> Ordering {
        if a < b {
            Ordering::Less
        } else if a == b {
            Ordering::Equal
        } else {
            Ordering::Greater
        }
    }

    fn compare(&self, a: &i64, b: &i64) -> (r: Ordering) {
        if *a < *b {
            Ordering::Less
        } else if *a == *b {
            Ordering::Equal
        } else {
            Ordering::Greater
        }
    }

    proof fn lemma_reflexive(&self, a: i64) {
    }

    proof fn lemma_antisymmetric(&self, a: i64, b: i64) {
    }

    proof fn lemma_transitive(&self, a: i64, b: i64, c: i64) {
    }
}

impl Comparator<u32> for NaturalOrd {
    open spec fn cmp_spec(&self, a: u32, b: u32) -> Ordering {
        if a < b {
            Ordering::Less
        } else if a == b {
            Ordering::Equal
        } else {
            Ordering::Greater
        }
    }

    fn compare(&self, a: &u32, b: &u32) -> (r: Ordering) {
        if *a < *b {
            Ordering::Less
        } else if *a == *b {
            Ordering::Equal
        } else {
            Ordering::Greater
        }
    }

    proof fn lemma_reflexive(&self, a: u32) {
    }

    proof fn lemma_antisymmetric(&self, a: u32, b: u32) {
    }

    proof fn lemma_transitive(&self, a: u32, b: u32, c: u32) {
    }
}

impl Comparator<u64> for NaturalOrd {
    open spec fn cmp_spec(&self, a: u64, b: u64) -> Ordering {
        if a < b {
            Ordering::Less
        } else if a == b {
            Ordering::Equal
        } else {
            Ordering::Greater
        }
    }

    fn compare(&self, a: &u64, b: &u64) -> (r: Ordering) {
        if *a < *b {
            Ordering::Less
        } else if *a == *b {
            Ordering::Equal
        } else {
            Ordering::Greater
        }
    }

    proof fn lemma_reflexive(&self, a: u64) {
    }

    proof fn lemma_antisymmetric(&self, a: u64, b: u64) {
    }

    proof fn lemma_transitive(&self, a: u64, b: u64, c: u64) {
    }
}

impl Comparator<usize> for NaturalOrd {
    open spec fn cmp_spec(&self, a: usize, b: usize) -> Ordering {
        if a < b {
            Ordering::Less
        } else if a == b {
            Ordering::Equal
        } else {
            Ordering::Greater
        }
    }

    fn compare(&self, a: &usize, b: &usize) -> (r: Ordering) {
        if *a < *b {
            Ordering::Less
        } else if *a == *b {
            Ordering::Equal
        } else {
            Ordering::Greater
        }
    }

    proof fn lemma_reflexive(&self, a: usize) {
    }

    proof fn lemma_antisymmetric(&self, a: usize, b: usize) {
    }

    proof fn lemma_transitive(&self, a: usize, b: usize, c: usize) {
    }
}

/// The reverse of another comparison strategy: compares with the arguments
/// swapped, so ascending order under `ReverseOrd` is descending order under
/// the wrapped strategy.
#[derive(Clone, Copy, PartialEq, Eq, Structural)]
pub struct ReverseOrd<C> {
    pub inner: C,
}

impl<T, C: Comparator<T>> Comparator<T> for ReverseOrd<C> {
    open spec fn cmp_spec(&self, a: T, b: T) -> Ordering {
        self.inner.cmp_spec(b, a)
    }

    fn compare(&self, a: &T, b: &T) -> (r: Ordering) {
        self.inner.compare(b, a)
    }

    proof fn lemma_reflexive(&self, a: T) {
        self.inner.lemma_reflexive(a);
    }

    proof fn lemma_antisymmetric(&self, a: T, b: T) {
        self.inner.lemma_antisymmetric(b, a);
    }

    proof fn lemma_transitive(&self, a: T, b: T, c: T) {
        self.inner.lemma_transitive(c, b, a);
    }
}

/// The sequence is strictly ascending under `c`: every earlier element
/// compares `Less` than every later one.
pub open spec fn sorted_by<T, C: Comparator<T>>(c: C, s: Seq<T>) -> bool {
    forall|i: int, j: int|
        0 <= i < j < s.len() ==> c.cmp_spec(s[i], s[j]) == Ordering::Less
}

/// Some element of `s` compares `Equal` to `v` under `c`.
pub open spec fn has_equiv<T, C: Comparator<T>>(c: C, s: Seq<T>, v: T) -> bool {
    exists|i: int| 0 <= i < s.len() && c.cmp_spec(s[i], v) == Ordering::Equal
}

/// The index of the first element of `s` that does not compare `Less` than
/// `v` under `c`; `s.len()` if every element does.
pub open spec fn first_ge<T, C: Comparator<T>>(c: C, s: Seq<T>, v: T) -> int
    decreases s.len(),
{
    if s.len() == 0 {
        0
    } else if c.cmp_spec(s[0], v) == Ordering::Less {
        1 + first_ge(c, s.drop_first(), v)
    } else {
        0
    }
}

/// How many elements of `s` compare `Equal` to `v` under `c`.
pub open spec fn equiv_count<T, C: Comparator<T>>(c: C, s: Seq<T>, v: T) -> int
    decreases s.len(),
{
    if s.len() == 0 {
        0
    } else {
        equiv_count(c, s.drop_first(), v) + if c.cmp_spec(s[0], v) == Ordering::Equal {
            1int
        } else {
            0int
        }
    }
}

/// `first_ge` splits the sequence: everything before it is `Less` than `v`,
/// and the element at it (when it exists) is not.
pub proof fn lemma_first_ge_basic<T, C: Comparator<T>>(c: C, s: Seq<T>, v: T)
    ensures
        0 <= first_ge(c, s, v) <= s.len(),
        forall|j: int| 0 <= j < first_ge(c, s, v) ==> c.cmp_spec(s[j], v) == Ordering::Less,
        first_ge(c, s, v) < s.len() ==> c.cmp_spec(s[first_ge(c, s, v)], v) != Ordering::Less,
    decreases s.len(),
{
    if s.len() > 0 && c.cmp_spec(s[0], v) == Ordering::Less {
        lemma_first_ge_basic(c, s.drop_first(), v);
        assert forall|j: int| 0 <= j < first_ge(c, s, v) implies c.cmp_spec(s[j], v)
            == Ordering::Less by {
            if j > 0 {
                assert(s.drop_first()[j - 1] == s[j]);
            }
        }
    }
}

/// In a sorted sequence nothing at or after `first_ge` is `Less` than `v`.
pub proof fn lemma_first_ge_sorted<T, C: Comparator<T>>(c: C, s: Seq<T>, v: T)
    requires
        sorted_by(c, s),
    ensures
        0 <= first_ge(c, s, v) <= s.len(),
        forall|j: int| 0 <= j < first_ge(c, s, v) ==> c.cmp_spec(s[j], v) == Ordering::Less,
        forall|j: int|
            first_ge(c, s, v) <= j < s.len() ==> c.cmp_spec(s[j], v) != Ordering::Less,
{
    lemma_first_ge_basic(c, s, v);
    let f = first_ge(c, s, v);
    assert forall|j: int| f <= j < s.len() implies c.cmp_spec(s[j], v) != Ordering::Less by {
        if j > f {
            c.lemma_transitive(s[f], s[j], v);
        }
    }
}

/// `first_ge` is the unique index with the splitting property.
pub proof fn lemma_first_ge_is<T, C: Comparator<T>>(c: C, s: Seq<T>, v: T, q: int)
    requires
        0 <= q <= s.len(),
        forall|j: int| 0 <= j < q ==> c.cmp_spec(s[j], v) == Ordering::Less,
        q < s.len() ==> c.cmp_spec(s[q], v) != Ordering::Less,
    ensures
        first_ge(c, s, v) == q,
    decreases s.len(),
{
    if s.len() > 0 && c.cmp_spec(s[0], v) == Ordering::Less {
        assert(q >= 1);
        assert forall|j: int| 0 <= j < q - 1 implies c.cmp_spec(s.drop_first()[j], v)
            == Ordering::Less by {
            assert(s.drop_first()[j] == s[j + 1]);
        }
        lemma_first_ge_is(c, s.drop_first(), v, q - 1);
    }
}

/// In a sorted sequence, an element equivalent to `v` can sit only at
/// `first_ge`, so `has_equiv` is decided by looking there.
pub proof fn lemma_equiv_at_first_ge<T, C: Comparator<T>>(c: C, s: Seq<T>, v: T)
    requires
        sorted_by(c, s),
    ensures
        has_equiv(c, s, v) <==> (first_ge(c, s, v) < s.len() && c.cmp_spec(
            s[first_ge(c, s, v)],
            v,
        ) == Ordering::Equal),
        forall|i: int|
            0 <= i < s.len() && c.cmp_spec(s[i], v) == Ordering::Equal ==> i == first_ge(
                c,
                s,
                v,
            ),
{
    lemma_first_ge_sorted(c, s, v);
    let f = first_ge(c, s, v);
    assert forall|i: int|
        0 <= i < s.len() && c.cmp_spec(s[i], v) == Ordering::Equal implies i == f by {
        if i < f {
            assert(c.cmp_spec(s[i], v) == Ordering::Less);
        } else if i > f {
            // s[f] is Less than s[i], which is equivalent to v, so s[f] is
            // Less than v, contradicting the choice of f.
            c.lemma_transitive(s[f], s[i], v);
            assert(false);
        }
    }
    if has_equiv(c, s, v) {
        let i = choose|i: int| 0 <= i < s.len() && c.cmp_spec(s[i], v) == Ordering::Equal;
        assert(i == f);
    }
}

/// Inserting a value with no equivalent already present, at its `first_ge`
/// position, keeps the sequence sorted.
pub proof fn lemma_insert_sorted<T, C: Comparator<T>>(c: C, s: Seq<T>, v: T)
    requires
        sorted_by(c, s),
        !has_equiv(c, s, v),
    ensures
        sorted_by(c, s.insert(first_ge(c, s, v), v)),
{
    lemma_first_ge_sorted(c, s, v);
    let f = first_ge(c, s, v);
    let t = s.insert(f, v);
    assert forall|i: int, j: int| 0 <= i < j < t.len() implies c.cmp_spec(t[i], t[j])
        == Ordering::Less by {
        if i == f {
            // t[i] == v, t[j] == s[j-1] with j-1 >= f
            let w = s[j - 1];
            assert(t[j] == w);
            assert(c.cmp_spec(w, v) != Ordering::Less);
            assert(!(0 <= j - 1 < s.len() && c.cmp_spec(s[j - 1], v) == Ordering::Equal));
            assert(c.cmp_spec(w, v) == Ordering::Greater);
            c.lemma_antisymmetric(v, w);
        } else if j == f {
            assert(t[i] == s[i]);
            assert(c.cmp_spec(s[i], v) == Ordering::Less);
        } else if i < f && j > f {
            assert(t[i] == s[i] && t[j] == s[j - 1]);
            assert(c.cmp_spec(s[i], v) == Ordering::Less);
        } else if j < f {
            assert(t[i] == s[i] && t[j] == s[j]);
        } else {
            assert(t[i] == s[i - 1] && t[j] == s[j - 1]);
        }
    }
}

/// Removing any element of a sorted sequence keeps it sorted.
pub proof fn lemma_remove_sorted<T, C: Comparator<T>>(c: C, s: Seq<T>, i: int)
    requires
        sorted_by(c, s),
        0 <= i < s.len(),
    ensures
        sorted_by(c, s.remove(i)),
{
    let t = s.remove(i);
    assert forall|x: int, y: int| 0 <= x < y < t.len() implies c.cmp_spec(t[x], t[y])
        == Ordering::Less by {
        let sx: int = if x < i { x } else { x + 1 };
        let sy: int = if y < i { y } else { y + 1 };
        assert(t[x] == s[sx] && t[y] == s[sy]);
    }
}

/// A sorted sequence holds at most one element equivalent to `v`; when one is
/// present the count is exactly one.
pub proof fn lemma_sorted_equiv_count<T, C: Comparator<T>>(c: C, s: Seq<T>, v: T)
    requires
        sorted_by(c, s),
    ensures
        has_equiv(c, s, v) ==> equiv_count(c, s, v) == 1,
        !has_equiv(c, s, v) ==> equiv_count(c, s, v) == 0,
    decreases s.len(),
{
    if s.len() == 0 {
    } else {
        let d = s.drop_first();
        assert forall|i: int, j: int| 0 <= i < j < d.len() implies c.cmp_spec(d[i], d[j])
            == Ordering::Less by {
            assert(d[i] == s[i + 1] && d[j] == s[j + 1]);
        }
        lemma_sorted_equiv_count(c, d, v);
        if c.cmp_spec(s[0], v) == Ordering::Equal {
            if has_equiv(c, d, v) {
                let i = choose|i: int|
                    0 <= i < d.len() && c.cmp_spec(d[i], v) == Ordering::Equal;
                assert(d[i] == s[i + 1]);
                c.lemma_antisymmetric(s[i + 1], v);
                c.lemma_transitive(s[0], v, s[i + 1]);
                c.lemma_antisymmetric(s[0], s[i + 1]);
                assert(false);
            }
            assert(has_equiv(c, s, v));
        } else {
            if has_equiv(c, s, v) {
                let i = choose|i: int|
                    0 <= i < s.len() && c.cmp_spec(s[i], v) == Ordering::Equal;
                assert(i >= 1);
                assert(d[i - 1] == s[i]);
                assert(has_equiv(c, d, v));
            }
            if has_equiv(c, d, v) {
                let i = choose|i: int|
                    0 <= i < d.len() && c.cmp_spec(d[i], v) == Ordering::Equal;
                assert(s[i + 1] == d[i]);
                assert(has_equiv(c, s, v));
            }
        }
    }
}

/// After inserting `v` into a sorted sequence with no equivalent of `v`,
/// membership of any probe `w` is membership in the old sequence or
/// equivalence of `w` with the new value.
pub proof fn lemma_contains_after_insert<T, C: Comparator<T>>(c: C, s: Seq<T>, v: T, w: T)
    requires
        sorted_by(c, s),
        !has_equiv(c, s, v),
    ensures
        has_equiv(c, s.insert(first_ge(c, s, v), v), w) <==> (has_equiv(c, s, w)
            || c.cmp_spec(v, w) == Ordering::Equal),
{
    lemma_first_ge_sorted(c, s, v);
    let f = first_ge(c, s, v);
    let t = s.insert(f, v);
    if has_equiv(c, t, w) {
        let i = choose|i: int| 0 <= i < t.len() && c.cmp_spec(t[i], w) == Ordering::Equal;
        if i == f {
            assert(c.cmp_spec(v, w) == Ordering::Equal);
        } else if i < f {
            assert(t[i] == s[i]);
            assert(has_equiv(c, s, w));
        } else {
            assert(t[i] == s[i - 1]);
            assert(has_equiv(c, s, w));
        }
    }
    if has_equiv(c, s, w) {
        let i = choose|i: int| 0 <= i < s.len() && c.cmp_spec(s[i], w) == Ordering::Equal;
        if i < f {
            assert(t[i] == s[i]);
            assert(has_equiv(c, t, w));
        } else {
            assert(t[i + 1] == s[i]);
            assert(has_equiv(c, t, w));
        }
    }
    if c.cmp_spec(v, w) == Ordering::Equal {
        assert(t[f] == v);
        assert(has_equiv(c, t, w));
    }
}

/// After removing the element equivalent to `v` from a sorted sequence,
/// membership of a probe `w` survives exactly when `w` is not equivalent
/// to `v`.
pub proof fn lemma_contains_after_remove<T, C: Comparator<T>>(c: C, s: Seq<T>, v: T, w: T)
    requires
        sorted_by(c, s),
        has_equiv(c, s, v),
    ensures
        has_equiv(c, s.remove(first_ge(c, s, v)), w) <==> (has_equiv(c, s, w) && c.cmp_spec(
            v,
            w,
        ) != Ordering::Equal),
{
    lemma_equiv_at_first_ge(c, s, v);
    lemma_equiv_at_first_ge(c, s, w);
    let f = first_ge(c, s, v);
    let t = s.remove(f);
    if has_equiv(c, t, w) {
        let i = choose|i: int| 0 <= i < t.len() && c.cmp_spec(t[i], w) == Ordering::Equal;
        let si: int = if i < f { i } else { i + 1 };
        assert(t[i] == s[si]);
        assert(has_equiv(c, s, w));
        // si != f, so the w-equivalent element is not the removed one;
        // if v and w were equivalent the unique w-equivalent index would be f.
        if c.cmp_spec(v, w) == Ordering::Equal {
            assert(c.cmp_spec(s[f], v) == Ordering::Equal);
            c.lemma_transitive(s[f], v, w);
            assert(si == first_ge(c, s, w));
            assert(f == first_ge(c, s, w));
            assert(false);
        }
    }
    if has_equiv(c, s, w) && c.cmp_spec(v, w) != Ordering::Equal {
        let i = choose|i: int| 0 <= i < s.len() && c.cmp_spec(s[i], w) == Ordering::Equal;
        if i == f {
            assert(c.cmp_spec(s[f], v) == Ordering::Equal);
            c.lemma_antisymmetric(s[f], v);
            c.lemma_transitive(v, s[f], w);
            assert(false);
        }
        let ti: int = if i < f { i } else { i - 1 };
        assert(t[ti] == s[i]);
        assert(has_equiv(c, t, w));
    }
}

/// Ascending order under the reversed strategy is exactly descending order
/// under the strategy itself.
pub proof fn lemma_reverse_sorted<T, C: Comparator<T>>(c: C, s: Seq<T>)
    ensures
        sorted_by(ReverseOrd { inner: c }, s) <==> (forall|i: int, j: int|
            0 <= i < j < s.len() ==> c.cmp_spec(s[j], s[i]) == Ordering::Less),
{
    let rc = ReverseOrd { inner: c };
    if sorted_by(rc, s) {
        assert forall|i: int, j: int| 0 <= i < j < s.len() implies c.cmp_spec(s[j], s[i])
            == Ordering::Less by {
            assert(rc.cmp_spec(s[i], s[j]) == Ordering::Less);
        }
    }
    if forall|i: int, j: int| 0 <= i < j < s.len() ==> c.cmp_spec(s[j], s[i]) == Ordering::Less {
        assert forall|i: int, j: int| 0 <= i < j < s.len() implies rc.cmp_spec(s[i], s[j])
            == Ordering::Less by {
            assert(c.cmp_spec(s[j], s[i]) == Ordering::Less);
        }
    }
}

/// Removing a value's equivalent from a sorted sequence and then re-inserting
/// the value succeeds and leaves exactly one equivalent of it.
pub proof fn lemma_remove_reinsert_once<T, C: Comparator<T>>(c: C, s: Seq<T>, v: T)
    requires
        sorted_by(c, s),
        has_equiv(c, s, v),
    ensures
        ({
            let s1 = s.remove(first_ge(c, s, v));
            let s2 = s1.insert(first_ge(c, s1, v), v);
            &&& !has_equiv(c, s1, v)
            &&& sorted_by(c, s2)
            &&& equiv_count(c, s2, v) == 1
        }),
{
    c.lemma_reflexive(v);
    lemma_equiv_at_first_ge(c, s, v);
    lemma_remove_sorted(c, s, first_ge(c, s, v));
    let s1 = s.remove(first_ge(c, s, v));
    lemma_contains_after_remove(c, s, v, v);
    lemma_insert_sorted(c, s1, v);
    let s2 = s1.insert(first_ge(c, s1, v), v);
    lemma_contains_after_insert(c, s1, v, v);
    lemma_sorted_equiv_count(c, s2, v);
}

/// Nothing is equivalent to anything in an empty sequence: after a clear,
/// every membership probe is false.
pub proof fn lemma_empty_has_no_equiv<T, C: Comparator<T>>(c: C, v: T)
    ensures
        !has_equiv(c, Seq::<T>::empty(), v),
{
}

} // verus!
