//! An ordered skip list: a set of elements kept strictly ascending under an
//! injected comparison strategy, stored as a multi-level forward-linked
//! structure over an arena of nodes addressed by stable indices.

use vstd::prelude::*;
use vstd::string::StringExecFns;
use core::cmp::Ordering;
use crate::compare::{
    Comparator, sorted_by, has_equiv, first_ge, lemma_first_ge_sorted, lemma_first_ge_is,
    lemma_equiv_at_first_ge, lemma_insert_sorted, lemma_remove_sorted,
};
use crate::error::CollectionError;
use crate::level_generator::{DefaultLevelGenerator, GenerateLevel};
use crate::skipnode::SkipNode;

verus! {

/// The position of the first entry of `lv` at index `k` or beyond whose value
/// reaches `l`; `lv.len()` if there is none.
pub open spec fn first_at_or_after(lv: Seq<int>, k: int, l: int) -> int
    decreases lv.len() - k when 0 <= k <= lv.len()
{
    if k >= lv.len() {
        lv.len() as int
    } else if lv[k] >= l {
        k
    } else {
        first_at_or_after(lv, k + 1, l)
    }
}

/// `first_at_or_after` lands within bounds, on an entry reaching `l`, and
/// skips exactly the entries below `l`.
proof fn lemma_faa_bounds(lv: Seq<int>, k: int, l: int)
    requires
        0 <= k <= lv.len(),
    ensures
        k <= first_at_or_after(lv, k, l) <= lv.len(),
        first_at_or_after(lv, k, l) < lv.len() ==> lv[first_at_or_after(lv, k, l)] >= l,
        forall|j: int| k <= j < first_at_or_after(lv, k, l) ==> lv[j] < l,
    decreases lv.len() - k,
{
    if k < lv.len() && lv[k] < l {
        lemma_faa_bounds(lv, k + 1, l);
    }
}

/// The splitting property determines `first_at_or_after` uniquely.
proof fn lemma_faa_is(lv: Seq<int>, k: int, l: int, q: int)
    requires
        0 <= k <= q <= lv.len(),
        forall|j: int| k <= j < q ==> lv[j] < l,
        q < lv.len() ==> lv[q] >= l,
    ensures
        first_at_or_after(lv, k, l) == q,
    decreases q - k,
{
    if k < q {
        lemma_faa_is(lv, k + 1, l, q);
    }
}

/// Starting past an insertion point, `first_at_or_after` over the extended
/// sequence is the old answer shifted right by one.
proof fn lemma_faa_insert_high(lv: Seq<int>, ip: int, x: int, k2: int, l: int)
    requires
        0 <= ip < k2 <= lv.len() + 1,
    ensures
        first_at_or_after(lv.insert(ip, x), k2, l) == first_at_or_after(lv, k2 - 1, l) + 1,
{
    lv.insert_ensures(ip, x);
    let q = first_at_or_after(lv, k2 - 1, l);
    lemma_faa_bounds(lv, k2 - 1, l);
    let t = lv.insert(ip, x);
    assert forall|j: int| k2 <= j < q + 1 implies t[j] < l by {
        assert(t[j] == lv[j - 1]);
    }
    if q < lv.len() {
        assert(t[q + 1] == lv[q]);
    }
    lemma_faa_is(t, k2, l, q + 1);
}

/// Starting at or before an insertion point, `first_at_or_after` over the
/// extended sequence is: the old answer if it fell before the point, the
/// point itself if the new entry reaches the level, or the old answer
/// shifted right by one otherwise.
proof fn lemma_faa_insert_low(lv: Seq<int>, ip: int, x: int, k: int, l: int)
    requires
        0 <= k <= ip <= lv.len(),
    ensures
        ({
            let q = first_at_or_after(lv, k, l);
            let t = lv.insert(ip, x);
            if q < ip {
                first_at_or_after(t, k, l) == q
            } else if x >= l {
                first_at_or_after(t, k, l) == ip
            } else {
                first_at_or_after(t, k, l) == q + 1
            }
        }),
{
    lv.insert_ensures(ip, x);
    let q = first_at_or_after(lv, k, l);
    lemma_faa_bounds(lv, k, l);
    let t = lv.insert(ip, x);
    if q < ip {
        assert forall|j: int| k <= j < q implies t[j] < l by {
            assert(t[j] == lv[j]);
        }
        assert(t[q] == lv[q]);
        lemma_faa_is(t, k, l, q);
    } else if x >= l {
        assert forall|j: int| k <= j < ip implies t[j] < l by {
            assert(t[j] == lv[j]);
        }
        assert(t[ip] == x);
        lemma_faa_is(t, k, l, ip);
    } else {
        assert forall|j: int| k <= j < q + 1 implies t[j] < l by {
            if j < ip {
                assert(t[j] == lv[j]);
            } else if j == ip {
                assert(t[j] == x);
            } else {
                assert(t[j] == lv[j - 1]);
            }
        }
        if q < lv.len() {
            assert(t[q + 1] == lv[q]);
        }
        lemma_faa_is(t, k, l, q + 1);
    }
}

/// How `first_at_or_after` shifts when one entry is removed.
proof fn lemma_faa_remove(lv: Seq<int>, rp: int, k: int, l: int)
    requires
        0 <= rp < lv.len(),
        0 <= k <= lv.len() - 1,
    ensures
        ({
            let t = lv.remove(rp);
            if k <= rp {
                let q = first_at_or_after(lv, k, l);
                if q < rp {
                    first_at_or_after(t, k, l) == q
                } else if q == rp {
                    first_at_or_after(t, k, l) == first_at_or_after(lv, rp + 1, l) - 1
                } else {
                    first_at_or_after(t, k, l) == q - 1
                }
            } else {
                first_at_or_after(t, k, l) == first_at_or_after(lv, k + 1, l) - 1
            }
        }),
{
    lv.remove_ensures(rp);
    let t = lv.remove(rp);
    if k <= rp {
        let q = first_at_or_after(lv, k, l);
        lemma_faa_bounds(lv, k, l);
        if q < rp {
            assert forall|j: int| k <= j < q implies t[j] < l by {
                assert(t[j] == lv[j]);
            }
            assert(t[q] == lv[q]);
            lemma_faa_is(t, k, l, q);
        } else if q == rp {
            let q2 = first_at_or_after(lv, rp + 1, l);
            lemma_faa_bounds(lv, rp + 1, l);
            assert forall|j: int| k <= j < q2 - 1 implies t[j] < l by {
                if j < rp {
                    assert(t[j] == lv[j]);
                } else {
                    assert(t[j] == lv[j + 1]);
                }
            }
            if q2 < lv.len() {
                assert(t[q2 - 1] == lv[q2]);
            }
            lemma_faa_is(t, k, l, q2 - 1);
        } else {
            assert forall|j: int| k <= j < q - 1 implies t[j] < l by {
                if j < rp {
                    assert(t[j] == lv[j]);
                } else {
                    assert(t[j] == lv[j + 1]);
                }
            }
            if q < lv.len() {
                assert(t[q - 1] == lv[q]);
            }
            lemma_faa_is(t, k, l, q - 1);
        }
    } else {
        let q = first_at_or_after(lv, k + 1, l);
        lemma_faa_bounds(lv, k + 1, l);
        assert forall|j: int| k <= j < q - 1 implies t[j] < l by {
            assert(t[j] == lv[j + 1]);
        }
        if q < lv.len() {
            assert(t[q - 1] == lv[q]);
        }
        lemma_faa_is(t, k, l, q - 1);
    }
}

/// Inserting a fresh value into a duplicate-free sequence keeps it
/// duplicate-free.
proof fn lemma_insert_nodup(s: Seq<int>, i: int, x: int)
    requires
        0 <= i <= s.len(),
        s.no_duplicates(),
        !s.contains(x),
    ensures
        s.insert(i, x).no_duplicates(),
{
    s.insert_ensures(i, x);
    let t = s.insert(i, x);
    assert forall|a: int, b: int|
        0 <= a < t.len() && 0 <= b < t.len() && a != b implies t[a] != t[b] by {
        let sa: int = if a < i {
            a
        } else {
            a - 1
        };
        let sb: int = if b < i {
            b
        } else {
            b - 1
        };
        if a == i {
            assert(t[b] == s[sb]);
            assert(t[a] == x);
        } else if b == i {
            assert(t[a] == s[sa]);
            assert(t[b] == x);
        } else {
            assert(t[a] == s[sa] && t[b] == s[sb]);
        }
    }
}

/// Removing an element of a duplicate-free sequence keeps it duplicate-free.
proof fn lemma_remove_nodup(s: Seq<int>, i: int)
    requires
        0 <= i < s.len(),
        s.no_duplicates(),
    ensures
        s.remove(i).no_duplicates(),
{
    s.remove_ensures(i);
    let t = s.remove(i);
    assert forall|a: int, b: int|
        0 <= a < t.len() && 0 <= b < t.len() && a != b implies t[a] != t[b] by {
        let sa: int = if a < i {
            a
        } else {
            a + 1
        };
        let sb: int = if b < i {
            b
        } else {
            b + 1
        };
        assert(t[a] == s[sa] && t[b] == s[sb]);
    }
}

/// A duplicate-free sequence of integers drawn from `[1, n)` has at most
/// `n - 1` entries.
proof fn lemma_ord_len_bound(s: Seq<int>, n: int)
    requires
        s.no_duplicates(),
        forall|k: int| 0 <= k < s.len() ==> 1 <= #[trigger] s[k] < n,
        n >= 1,
    ensures
        s.len() <= n - 1,
{
    s.unique_seq_to_set();
    assert(s.to_set().subset_of(vstd::set_lib::set_int_range(1, n))) by {
        assert forall|x: int| s.to_set().contains(x) implies vstd::set_lib::set_int_range(
            1,
            n,
        ).contains(x) by {
            let k = choose|k: int| 0 <= k < s.len() && s[k] == x;
            assert(1 <= s[k] < n);
        }
    }
    vstd::set_lib::lemma_int_range(1, n);
    vstd::set_lib::lemma_len_subset(s.to_set(), vstd::set_lib::set_int_range(1, n));
}

/// Set one element of a vector.
fn vec_set<A>(v: &mut Vec<A>, i: usize, x: A)
    requires
        i < old(v)@.len(),
    ensures
        final(v)@ == old(v)@.update(i as int, x),
{
    let slot = &mut v[i];
    *slot = x;
}

/// A vector of `n` zeros.
fn zero_vec(n: usize) -> (r: Vec<usize>)
    ensures
        r@.len() == n,
        forall|i: int| 0 <= i < n ==> r@[i] == 0,
{
    let mut r: Vec<usize> = Vec::new();
    let mut k: usize = 0;
    while k < n
        invariant
            k <= n,
            r@.len() == k,
            forall|i: int| 0 <= i < k ==> r@[i] == 0,
        decreases n - k,
    {
        r.push(0);
        k = k + 1;
    }
    r
}

/// The options to create a skip list: a comparison strategy, and either a
/// level bound for the default generator or a custom generator (which
/// overrides the bound).
pub struct Options<C, G> {
    /// Custom comparator; required by `with_options`, optional where the
    /// element type has a default order.
    pub cmp: Option<C>,
    /// Bound handed to the default level generator when no generator is
    /// supplied.
    pub level_bound: Option<usize>,
    /// Custom level generator.
    pub level_generator: Option<G>,
}

/// The generator configuration of `o` can be realized: either a generator is
/// supplied, or the requested bound (if any) is at least 1.
pub open spec fn generator_ok<C, G>(o: Options<C, G>) -> bool {
    o.level_generator is Some || (o.level_bound matches Some(b) ==> b >= 1)
}

impl<C, G: GenerateLevel> Options<C, G> {
    /// Surrender the configured level generator, falling back to one built
    /// from the bound (or the default) when none was supplied.
    pub fn take_level_generator(&mut self) -> (r: Result<G, CollectionError>)
        ensures
            final(self).cmp == old(self).cmp,
            final(self).level_bound == old(self).level_bound,
            final(self).level_generator is None,
            old(self).level_generator matches Some(g) ==> r == Ok::<G, CollectionError>(g),
            old(self).level_generator is None ==> match old(self).level_bound {
                Some(b) => if b >= 1 {
                    r matches Ok(g) && g.level_bound_spec() == b as int
                } else {
                    r matches Err(e) && e is InvalidParameter
                },
                None => r matches Ok(g) && g.level_bound_spec() >= 1,
            },
    {
        match self.level_generator.take() {
            Some(g) => Ok(g),
            None => G::from_bound(self.level_bound),
        }
    }

    /// Surrender the configured comparator; fails when none was supplied.
    pub fn take_comparator(&mut self) -> (r: Result<C, CollectionError>)
        ensures
            final(self).level_bound == old(self).level_bound,
            final(self).level_generator == old(self).level_generator,
            final(self).cmp is None,
            old(self).cmp matches Some(c) ==> r == Ok::<C, CollectionError>(c),
            old(self).cmp is None ==> (r matches Err(e) && e is InvalidParameter),
    {
        match self.cmp.take() {
            Some(c) => Ok(c),
            None => Err(
                CollectionError::InvalidParameter(
                    String::from_str("comparator must be provided"),
                ),
            ),
        }
    }
}

/// An ordered skip list over elements of `T`, compared by the strategy `C`,
/// with tower levels drawn by the generator `G`.
///
/// The structure is a set: no two stored elements compare `Equal`. All nodes
/// live in one arena (`nodes`); slot 0 holds the head sentinel, and removed
/// slots are recycled through `free`. The sequence of live slots in ascending
/// element order is tracked by the ghost `order`.
///
/// The structure is not internally synchronized; a caller sharing one across
/// threads must wrap it in external mutual exclusion.
pub struct OrdSkipList<T, C, G> {
    length: usize,
    nodes: Vec<Option<SkipNode<T>>>,
    free: Vec<usize>,
    cmp: C,
    level_generator: G,
    order: Ghost<Seq<int>>,
}

impl<T, C, G> View for OrdSkipList<T, C, G> {
    type V = Seq<T>;

    /// The stored elements, in ascending comparator order.
    closed spec fn view(&self) -> Seq<T> {
        Seq::new(
            self.order@.len(),
            |k: int| self.nodes@[self.order@[k]].unwrap().val.unwrap(),
        )
    }
}

impl<T, C, G> OrdSkipList<T, C, G> {
    /// The arena indices of the live value nodes, in ascending element order.
    pub(crate) closed spec fn ord(self) -> Seq<int> {
        self.order@
    }

    pub(crate) closed spec fn n_slots(self) -> int {
        self.nodes@.len() as int
    }

    pub(crate) closed spec fn node_at(self, i: int) -> SkipNode<T> {
        self.nodes@[i].unwrap()
    }

    /// The top level of the head sentinel; every tower stays at or below it.
    pub(crate) closed spec fn head_level(self) -> int {
        self.node_at(0).level as int
    }

    /// The tower levels of the live nodes, in order position.
    pub(crate) closed spec fn levels(self) -> Seq<int> {
        Seq::new(self.ord().len(), |k: int| self.node_at(self.ord()[k]).level as int)
    }

    pub(crate) closed spec fn val_at(self, k: int) -> T {
        self.node_at(self.ord()[k]).val.unwrap()
    }

    pub(crate) closed spec fn link_of(self, i: int, l: int) -> Option<usize> {
        self.node_at(i).links@[l]
    }

    /// The link encoding of an order position: the arena index at that
    /// position, or `None` past the end.
    pub(crate) closed spec fn link_for(self, p: int) -> Option<usize> {
        if 0 <= p < self.ord().len() {
            Some(self.ord()[p] as usize)
        } else {
            None
        }
    }

    /// Order entry `k` names a live value node of consistent shape.
    pub(crate) closed spec fn node_ok(self, k: int) -> bool {
        let i = self.ord()[k];
        &&& 1 <= i < self.n_slots()
        &&& self.nodes@[i] is Some
        &&& self.node_at(i).val is Some
        &&& self.node_at(i).level as int <= self.head_level()
        &&& self.node_at(i).links@.len() == self.node_at(i).level as int + 1
    }

    /// The arena, free list, head sentinel and order agree.
    pub(crate) closed spec fn wf_arena(self) -> bool {
        &&& 1 <= self.n_slots()
        &&& self.nodes@[0] is Some
        &&& self.node_at(0).val is None
        &&& self.node_at(0).links@.len() == self.head_level() + 1
        &&& self.length as int == self.ord().len() as int
        &&& self.ord().no_duplicates()
        &&& forall|k: int| 0 <= k < self.ord().len() ==> self.node_ok(k)
        &&& forall|j: int|
            0 <= j < self.free@.len() ==> 1 <= #[trigger] self.free@[j] < self.n_slots()
                && self.nodes@[self.free@[j] as int] is None
        &&& self.free@.no_duplicates()
    }

    /// At level `l`, the head and every node tall enough link to the next
    /// order position tall enough, or to nothing.
    pub(crate) closed spec fn links_ok_at(self, l: int) -> bool {
        &&& self.link_of(0, l) == self.link_for(first_at_or_after(self.levels(), 0, l))
        &&& forall|k: int|
            0 <= k < self.ord().len() && #[trigger] self.levels()[k] >= l ==> self.link_of(
                self.ord()[k],
                l,
            ) == self.link_for(first_at_or_after(self.levels(), k + 1, l))
    }

    /// The structural invariant: a consistent arena whose link chains realize
    /// the order at every level. Element values play no part in it.
    pub closed spec fn wf_shape(self) -> bool {
        &&& self.wf_arena()
        &&& forall|l: int| 0 <= l <= self.head_level() ==> self.links_ok_at(l)
    }
}

impl<T, C: Comparator<T>, G: GenerateLevel> OrdSkipList<T, C, G> {
    /// The comparison strategy this list orders by.
    pub closed spec fn comparator(self) -> C {
        self.cmp
    }

    /// The full invariant: well-formed structure whose elements ascend
    /// strictly under the comparator. Holds before and after every public
    /// operation.
    pub closed spec fn wf(self) -> bool {
        &&& self.wf_shape()
        &&& sorted_by(self.cmp, self@)
    }

    /// Some stored element compares `Equal` to `v`.
    pub open spec fn spec_contains(self, v: T) -> bool {
        has_equiv(self.comparator(), self@, v)
    }

    /// A well-formed list is sorted; re-sorting values after a mutation
    /// restores the full invariant.
    pub proof fn lemma_wf_parts(self)
        ensures
            self.wf() ==> sorted_by(self.comparator(), self@),
            self.wf() == (self.wf_shape() && sorted_by(self.comparator(), self@)),
    {
    }

    /// Build an empty list from a comparator and a generator.
    fn make(cmp: C, level_generator: G) -> (r: Self)
        requires
            level_generator.level_bound_spec() >= 1,
        ensures
            r.wf(),
            r@ == Seq::<T>::empty(),
            r.comparator() == cmp,
    {
        let lb = level_generator.level_bound();
        let head: SkipNode<T> = SkipNode::head(lb);
        let mut nodes: Vec<Option<SkipNode<T>>> = Vec::new();
        nodes.push(Some(head));
        let r = OrdSkipList {
            length: 0usize,
            nodes,
            free: Vec::new(),
            cmp,
            level_generator,
            order: Ghost(Seq::empty()),
        };
        proof {
            assert(r.ord().len() == 0);
            assert(r@ =~= Seq::<T>::empty());
            assert forall|l: int| 0 <= l <= r.head_level() implies r.links_ok_at(l) by {
                lemma_faa_is(r.levels(), 0, l, 0);
                assert(r.link_of(0, l) is None);
            }
        }
        r
    }

    /// `pi`/`pp` are a valid predecessor for `v` at level `l`: `pp` is an
    /// order position (or -1 for the head, with `pi == 0`) whose node reaches
    /// level `l` and compares `Less` than `v`, and no later node reaching
    /// level `l` compares `Less` than `v`.
    pub(crate) closed spec fn pred_ok(self, v: T, l: int, pi: int, pp: int) -> bool {
        &&& -1 <= pp < self.ord().len()
        &&& (pp == -1 ==> pi == 0)
        &&& (pp >= 0 ==> pi == self.ord()[pp] && self.levels()[pp] >= l && self.cmp.cmp_spec(
            self.val_at(pp),
            v,
        ) == Ordering::Less)
        &&& forall|j: int|
            pp < j < self.ord().len() && #[trigger] self.levels()[j] >= l ==> self.cmp.cmp_spec(
                self.val_at(j),
                v,
            ) != Ordering::Less
    }

    /// A level-0 predecessor pins the insertion point: `first_ge` is the
    /// position right after it.
    proof fn lemma_pred0_first_ge(self, v: T, pi: int, pp: int)
        requires
            self.wf(),
            self.pred_ok(v, 0, pi, pp),
        ensures
            first_ge(self.cmp, self@, v) == pp + 1,
    {
        assert forall|j: int| 0 <= j < pp + 1 implies self.cmp.cmp_spec(self@[j], v)
            == Ordering::Less by {
            assert(self@[j] == self.val_at(j));
            if j < pp {
                assert(self@[pp] == self.val_at(pp));
                assert(self.cmp.cmp_spec(self@[j], self@[pp]) == Ordering::Less);
                self.cmp.lemma_transitive(self.val_at(j), self.val_at(pp), v);
            }
        }
        if pp + 1 < self.ord().len() {
            assert(self.levels()[pp + 1] >= 0);
            assert(self.cmp.cmp_spec(self.val_at(pp + 1), v) != Ordering::Less);
            assert(self@[pp + 1] == self.val_at(pp + 1));
        }
        lemma_first_ge_is(self.cmp, self@, v, pp + 1);
    }

    /// Top-down descent shared by the query and the mutating operations: at
    /// each level, advance while the next node compares `Less` than `v`, then
    /// drop a level; record the last node visited per level.
    fn find_preds(&self, v: &T) -> (r: (Vec<usize>, Ghost<Seq<int>>))
        requires
            self.wf(),
        ensures
            r.0@.len() == self.head_level() + 1,
            r.1@.len() == self.head_level() + 1,
            forall|l: int|
                0 <= l <= self.head_level() ==> self.pred_ok(*v, l, r.0@[l] as int, r.1@[l]),
    {
        let nslots = self.nodes.len();
        let nlinks = self.node_ref(0).links.len();
        let mut preds: Vec<usize> = zero_vec(nlinks);
        let ghost mut pps: Seq<int> = Seq::new(nlinks as nat, |x: int| -1);
        let mut cur: usize = 0;
        let ghost mut cp: int = -1;
        let mut l: usize = nlinks;
        proof {
            assert forall|j: int|
                cp < j < self.ord().len() && #[trigger] self.levels()[j] >= l as int implies self
                .cmp.cmp_spec(self.val_at(j), *v) != Ordering::Less by {
                assert(self.node_ok(j));
            }
        }
        while l > 0
            invariant
                self.wf(),
                nslots as int == self.n_slots(),
                nlinks as int == self.head_level() + 1,
                l <= nlinks,
                preds@.len() == nlinks,
                pps.len() == nlinks,
                -1 <= cp < self.ord().len(),
                cp == -1 ==> cur == 0,
                cp >= 0 ==> cur as int == self.ord()[cp] && self.levels()[cp] >= l as int
                    && self.cmp.cmp_spec(self.val_at(cp), *v) == Ordering::Less,
                forall|j: int|
                    cp < j < self.ord().len() && #[trigger] self.levels()[j] >= l as int
                        ==> self.cmp.cmp_spec(self.val_at(j), *v) != Ordering::Less,
                forall|m: int|
                    l <= m < nlinks ==> self.pred_ok(*v, m, preds@[m] as int, pps[m]),
            decreases l,
        {
            l = l - 1;
            let mut done = false;
            while !done
                invariant
                    self.wf(),
                    nslots as int == self.n_slots(),
                    nlinks as int == self.head_level() + 1,
                    l < nlinks,
                    -1 <= cp < self.ord().len(),
                    cp == -1 ==> cur == 0,
                    cp >= 0 ==> cur as int == self.ord()[cp] && self.levels()[cp] >= l as int
                        && self.cmp.cmp_spec(self.val_at(cp), *v) == Ordering::Less,
                    done ==> ({
                        let q = first_at_or_after(self.levels(), cp + 1, l as int);
                        q == self.ord().len() || self.cmp.cmp_spec(self.val_at(q), *v)
                            != Ordering::Less
                    }),
                decreases self.ord().len() - cp, (if done { 0int } else { 1int }),
            {
                proof {
                    assert(self.links_ok_at(l as int));
                    if cp >= 0 {
                        assert(self.node_ok(cp));
                    }
                    lemma_faa_bounds(self.levels(), cp + 1, l as int);
                }
                let nxt = self.get_link(cur, l);
                let ghost q = first_at_or_after(self.levels(), cp + 1, l as int);
                match nxt {
                    None => {
                        done = true;
                        proof {
                            assert(self.link_for(q) is None);
                            assert(q == self.ord().len());
                        }
                    },
                    Some(ni) => {
                        proof {
                            assert(self.link_for(q) == Some(ni));
                            assert(q < self.ord().len());
                            assert(self.node_ok(q));
                            assert(ni as int == self.ord()[q]);
                        }
                        let nnode = self.node_ref(ni);
                        let nval = nnode.val.as_ref().unwrap();
                        let c = self.cmp.compare(nval, v);
                        match c {
                            Ordering::Less => {
                                cur = ni;
                                proof {
                                    cp = q;
                                }
                            },
                            _ => {
                                done = true;
                            },
                        }
                    },
                }
            }
            proof {
                let q = first_at_or_after(self.levels(), cp + 1, l as int);
                lemma_faa_bounds(self.levels(), cp + 1, l as int);
                assert forall|j: int|
                    cp < j < self.ord().len() && #[trigger] self.levels()[j] >= l as int implies self
                    .cmp.cmp_spec(self.val_at(j), *v) != Ordering::Less by {
                    if j < q {
                        assert(self.levels()[j] < l as int);
                    } else if j > q {
                        assert(self@[q] == self.val_at(q));
                        assert(self@[j] == self.val_at(j));
                        assert(self.cmp.cmp_spec(self@[q], self@[j]) == Ordering::Less);
                        self.cmp.lemma_transitive(self.val_at(q), self.val_at(j), *v);
                    }
                }
            }
            vec_set(&mut preds, l, cur);
            proof {
                pps = pps.update(l as int, cp);
                assert(self.pred_ok(*v, l as int, preds@[l as int] as int, pps[l as int]));
            }
        }
        (preds, Ghost(pps))
    }

    /// True exactly when some stored element compares `Equal` to `v`.
    ///
    /// Descends from the top level; expected cost is logarithmic under the
    /// geometric level distribution.
    pub fn contains(&self, v: &T) -> (r: bool)
        requires
            self.wf(),
        ensures
            r == self.spec_contains(*v),
    {
        let nslots = self.nodes.len();
        let (preds, pps) = self.find_preds(v);
        let p0 = preds[0];
        proof {
            assert(self.n_slots() == nslots as int);
            assert(self.pred_ok(*v, 0, preds@[0] as int, pps@[0]));
            if pps@[0] >= 0 {
                assert(self.node_ok(pps@[0]));
            }
            assert(self.links_ok_at(0));
            if pps@[0] + 1 < self.ord().len() {
                assert(self.levels()[pps@[0] + 1] >= 0);
            }
            lemma_faa_is(self.levels(), pps@[0] + 1, 0, pps@[0] + 1);
            self.lemma_pred0_first_ge(*v, preds@[0] as int, pps@[0]);
            lemma_equiv_at_first_ge(self.cmp, self@, *v);
        }
        let nxt = self.get_link(p0, 0);
        match nxt {
            None => {
                proof {
                    assert(self.link_for(pps@[0] + 1) is None);
                }
                false
            },
            Some(ni) => {
                proof {
                    assert(self.link_for(pps@[0] + 1) == Some(ni));
                    assert(self.node_ok(pps@[0] + 1));
                    assert(ni as int == self.ord()[pps@[0] + 1]);
                    assert(self@[pps@[0] + 1] == self.val_at(pps@[0] + 1));
                }
                let nnode = self.node_ref(ni);
                let nval = nnode.val.as_ref().unwrap();
                let c = self.cmp.compare(nval, v);
                match c {
                    Ordering::Equal => true,
                    _ => false,
                }
            },
        }
    }

    /// After splicing a fresh node `f` in at position `ip` behind its level-`l`
    /// predecessor, the level-`l` links realize the extended order.
    proof fn lemma_splice_links_at(
        self,
        s1: Self,
        d: T,
        f: int,
        ip: int,
        nl: int,
        l: int,
        pp: int,
        pi_int: int,
        q: int,
    )
        requires
            s1.wf(),
            0 <= l <= nl,
            nl <= s1.head_level(),
            0 <= ip <= s1.ord().len(),
            ip == first_ge(s1.cmp, s1@, d),
            !has_equiv(s1.cmp, s1@, d),
            self.cmp == s1.cmp,
            1 <= f,
            f < self.n_slots(),
            !s1.ord().contains(f),
            self.ord() == s1.ord().insert(ip, f),
            self.levels() == s1.levels().insert(ip, nl),
            self@ == s1@.insert(ip, d),
            s1.pred_ok(d, l, pi_int, pp),
            pi_int == (if pp == -1 {
                0int
            } else {
                s1.ord()[pp]
            }),
            q == first_at_or_after(s1.levels(), pp + 1, l),
            self.link_of(pi_int, l) == Some(f as usize),
            f == f as usize as int,
            forall|p: int| 0 <= p < self.ord().len() ==> self.ord()[p] == #[trigger] (self.ord()[p] as usize) as int,
            self.link_of(f, l) == s1.link_for(q),
            forall|i: int|
                0 <= i < s1.n_slots() && i != f && i != pi_int && s1.nodes@[i] is Some && l
                    < s1.node_at(i).links@.len() ==> #[trigger] self.link_of(i, l)
                    == s1.link_of(i, l),
        ensures
            self.links_ok_at(l),
    {
        let ordn = self.ord();
        let lvn = self.levels();
        s1.ord().insert_ensures(ip, f);
        s1.levels().insert_ensures(ip, nl);
        s1@.insert_ensures(ip, d);
        lemma_first_ge_sorted(s1.cmp, s1@, d);
        assert(s1.links_ok_at(l));
        lemma_faa_bounds(s1.levels(), pp + 1, l);
        if pp >= 0 {
            assert(s1.node_ok(pp));
            assert(s1@[pp] == s1.val_at(pp));
            assert(pp < ip);
        }
        assert(q >= ip) by {
            if q < ip {
                assert(s1.levels()[q] >= l);
                assert(s1@[q] == s1.val_at(q));
                assert(s1.cmp.cmp_spec(s1.val_at(q), d) != Ordering::Less);
            }
        }
        // predecessor (or head) now points at the new node
        lemma_faa_insert_low(s1.levels(), ip, nl, pp + 1, l);
        assert(first_at_or_after(lvn, pp + 1, l) == ip);
        assert(self.link_for(ip) == Some(f as usize));
        // the new node points at the old successor
        lemma_faa_insert_high(s1.levels(), ip, nl, ip + 1, l);
        assert forall|j: int| ip <= j < q implies s1.levels()[j] < l by {}
        lemma_faa_is(s1.levels(), ip, l, q);
        assert(first_at_or_after(lvn, ip + 1, l) == q + 1);
        assert(self.link_for(q + 1) == s1.link_for(q)) by {
            if q < s1.ord().len() {
                assert(ordn[q + 1] == s1.ord()[q]);
            }
        }
        // the head clause
        assert(self.link_of(0, l) == self.link_for(first_at_or_after(lvn, 0, l))) by {
            if pp == -1 {
                assert(self.link_of(0, l) == Some(f as usize));
                assert(first_at_or_after(lvn, 0, l) == ip);
            } else {
                let qh = first_at_or_after(s1.levels(), 0, l);
                lemma_faa_bounds(s1.levels(), 0, l);
                assert(qh <= pp) by {
                    if qh > pp {
                        assert(s1.levels()[pp] < l);
                    }
                }
                lemma_faa_insert_low(s1.levels(), ip, nl, 0, l);
                assert(first_at_or_after(lvn, 0, l) == qh);
                assert(self.link_of(0, l) == s1.link_of(0, l));
                assert(ordn[qh] == s1.ord()[qh]);
            }
        }
        // every other tall-enough node keeps a correct link
        assert forall|k: int|
            0 <= k < ordn.len() && #[trigger] lvn[k] >= l implies self.link_of(ordn[k], l)
            == self.link_for(first_at_or_after(lvn, k + 1, l)) by {
            if k == ip {
                assert(ordn[k] == f);
            } else if pp >= 0 && k == pp {
                assert(ordn[k] == pi_int);
            } else if k < ip {
                assert(ordn[k] == s1.ord()[k]);
                assert(lvn[k] == s1.levels()[k]);
                assert(s1.node_ok(k));
                assert(pp >= 0 && k < pp) by {
                    assert(s1@[k] == s1.val_at(k));
                    assert(s1.cmp.cmp_spec(s1.val_at(k), d) == Ordering::Less);
                    assert(s1.levels()[k] >= l);
                }
                let qk = first_at_or_after(s1.levels(), k + 1, l);
                lemma_faa_bounds(s1.levels(), k + 1, l);
                assert(qk <= pp) by {
                    if qk > pp {
                        assert(s1.levels()[pp] < l);
                    }
                }
                lemma_faa_insert_low(s1.levels(), ip, nl, k + 1, l);
                assert(first_at_or_after(lvn, k + 1, l) == qk);
                assert(s1.ord()[k] != pi_int) by {
                    assert(s1.ord().no_duplicates());
                }
                assert(s1.ord()[k] != f);
                assert(self.link_of(ordn[k], l) == s1.link_of(s1.ord()[k], l));
                assert(s1.link_of(s1.ord()[k], l) == s1.link_for(qk));
                assert(ordn[qk] == s1.ord()[qk]);
            } else {
                assert(ordn[k] == s1.ord()[k - 1]);
                assert(lvn[k] == s1.levels()[k - 1]);
                assert(s1.node_ok(k - 1));
                assert(k - 1 != pp);
                assert(s1.ord()[k - 1] != pi_int) by {
                    if pp >= 0 {
                        assert(s1.ord().no_duplicates());
                    }
                }
                assert(s1.ord()[k - 1] != f);
                let qk = first_at_or_after(s1.levels(), k, l);
                lemma_faa_bounds(s1.levels(), k, l);
                lemma_faa_insert_high(s1.levels(), ip, nl, k + 1, l);
                assert(first_at_or_after(lvn, k + 1, l) == qk + 1);
                assert(self.link_of(ordn[k], l) == s1.link_of(s1.ord()[k - 1], l));
                assert(s1.link_of(s1.ord()[k - 1], l) == s1.link_for(qk));
                assert(self.link_for(qk + 1) == s1.link_for(qk)) by {
                    if qk < s1.ord().len() {
                        assert(ordn[qk + 1] == s1.ord()[qk]);
                    }
                }
            }
        }
    }

    /// Above the new node's tower nothing was relinked, and the untouched
    /// links realize the shifted order.
    proof fn lemma_insert_high_links_at(self, s1: Self, d: T, f: int, ip: int, nl: int, m: int)
        requires
            s1.wf(),
            0 <= nl,
            nl < m <= s1.head_level(),
            0 <= ip <= s1.ord().len(),
            self.cmp == s1.cmp,
            1 <= f,
            f < self.n_slots(),
            !s1.ord().contains(f),
            self.ord() == s1.ord().insert(ip, f),
            self.levels() == s1.levels().insert(ip, nl),
            forall|p: int| 0 <= p < self.ord().len() ==> self.ord()[p] == #[trigger] (self.ord()[p] as usize) as int,
            forall|i: int|
                0 <= i < s1.n_slots() && i != f && s1.nodes@[i] is Some && m < s1.node_at(
                    i,
                ).links@.len() ==> #[trigger] self.link_of(i, m) == s1.link_of(i, m),
        ensures
            self.links_ok_at(m),
    {
        let ordn = self.ord();
        let lvn = self.levels();
        s1.ord().insert_ensures(ip, f);
        s1.levels().insert_ensures(ip, nl);
        assert(s1.links_ok_at(m));
        // head
        let qh = first_at_or_after(s1.levels(), 0, m);
        lemma_faa_bounds(s1.levels(), 0, m);
        lemma_faa_insert_low(s1.levels(), ip, nl, 0, m);
        assert(self.link_of(0, m) == s1.link_of(0, m));
        assert(self.link_of(0, m) == self.link_for(first_at_or_after(lvn, 0, m))) by {
            if qh < ip {
                assert(ordn[qh] == s1.ord()[qh]);
            } else {
                assert(first_at_or_after(lvn, 0, m) == qh + 1);
                if qh < s1.ord().len() {
                    assert(ordn[qh + 1] == s1.ord()[qh]);
                }
            }
        }
        assert forall|k: int|
            0 <= k < ordn.len() && #[trigger] lvn[k] >= m implies self.link_of(ordn[k], m)
            == self.link_for(first_at_or_after(lvn, k + 1, m)) by {
            assert(k != ip);
            if k < ip {
                assert(ordn[k] == s1.ord()[k]);
                assert(lvn[k] == s1.levels()[k]);
                assert(s1.node_ok(k));
                assert(s1.ord()[k] != f);
                assert(self.link_of(ordn[k], m) == s1.link_of(s1.ord()[k], m));
                let qk = first_at_or_after(s1.levels(), k + 1, m);
                lemma_faa_bounds(s1.levels(), k + 1, m);
                lemma_faa_insert_low(s1.levels(), ip, nl, k + 1, m);
                assert(self.link_for(first_at_or_after(lvn, k + 1, m)) == s1.link_for(
                    qk,
                )) by {
                    if qk < ip {
                        assert(ordn[qk] == s1.ord()[qk]);
                    } else {
                        assert(first_at_or_after(lvn, k + 1, m) == qk + 1);
                        if qk < s1.ord().len() {
                            assert(ordn[qk + 1] == s1.ord()[qk]);
                        }
                    }
                }
            } else {
                assert(ordn[k] == s1.ord()[k - 1]);
                assert(lvn[k] == s1.levels()[k - 1]);
                assert(s1.node_ok(k - 1));
                assert(s1.ord()[k - 1] != f);
                assert(self.link_of(ordn[k], m) == s1.link_of(s1.ord()[k - 1], m));
                let qk = first_at_or_after(s1.levels(), k, m);
                lemma_faa_bounds(s1.levels(), k, m);
                lemma_faa_insert_high(s1.levels(), ip, nl, k + 1, m);
                assert(first_at_or_after(lvn, k + 1, m) == qk + 1);
                assert(self.link_for(qk + 1) == s1.link_for(qk)) by {
                    if qk < s1.ord().len() {
                        assert(ordn[qk + 1] == s1.ord()[qk]);
                    }
                }
            }
        }
    }


    /// One splice step re-established: after redirecting the new node's and
    /// its predecessor's level-`l` links, the whole structural state of the
    /// splice loop is restored with the finished level advanced by one.
    #[verifier::rlimit(100)]
    #[verifier::spinoff_prover]
    proof fn lemma_splice_step(
        self,
        sb: Self,
        s1: Self,
        d: T,
        f: int,
        ip: int,
        nl: int,
        l: int,
        pp: int,
        pi_int: int,
        q: int,
        succ: Option<usize>,
    )
        requires
            s1.wf(),
            !s1.ord().contains(f),
            0 <= l <= nl,
            nl <= s1.head_level(),
            0 <= ip <= s1.ord().len(),
            ip == first_ge(s1.cmp, s1@, d),
            !has_equiv(s1.cmp, s1@, d),
            s1.pred_ok(d, l, pi_int, pp),
            pi_int == (if pp == -1 {
                0int
            } else {
                s1.ord()[pp]
            }),
            q == first_at_or_after(s1.levels(), pp + 1, l),
            succ == s1.link_for(q),
            sb.cmp == s1.cmp,
            sb.ord() == s1.ord().insert(ip, f),
            sb.levels() == s1.levels().insert(ip, nl),
            sb@ == s1@.insert(ip, d),
            1 <= f,
            f < sb.n_slots(),
            s1.n_slots() <= sb.n_slots(),
            forall|k: int| 0 <= k < sb.ord().len() ==> sb.node_ok(k),
            forall|m: int| 0 <= m < l ==> sb.links_ok_at(m),
            forall|m: int, i: int|
                l <= m <= s1.head_level() && 0 <= i < s1.n_slots() && i != f
                    && s1.nodes@[i] is Some && m < s1.node_at(i).links@.len()
                    ==> #[trigger] sb.link_of(i, m) == s1.link_of(i, m),
            forall|m: int| l <= m <= nl ==> sb.link_of(f, m) is None,
            forall|i: int|
                0 <= i < s1.n_slots() && i != f ==> (sb.nodes@[i] is Some <==> s1.nodes@[i]
                    is Some),
            forall|i: int|
                0 <= i < s1.n_slots() && i != f && s1.nodes@[i] is Some
                    ==> #[trigger] sb.node_at(i).links@.len() == s1.node_at(i).links@.len(),
            sb.nodes@[0] is Some,
            sb.node_at(0).val is None,
            sb.node_at(0).level as int == s1.head_level(),
            sb.node_at(0).links@.len() == s1.head_level() + 1,
            sb.nodes@[f] is Some,
            sb.node_at(f).level as int == nl,
            sb.node_at(f).val == Some(d),
            sb.node_at(f).links@.len() == nl + 1,
            self.order == sb.order,
            self.cmp == sb.cmp,
            self.nodes@.len() == sb.nodes@.len(),
            forall|j: int|
                0 <= j < sb.n_slots() && j != f && j != pi_int ==> self.nodes@[j]
                    == sb.nodes@[j],
            self.nodes@[f] is Some,
            self.node_at(f).val == sb.node_at(f).val,
            self.node_at(f).level == sb.node_at(f).level,
            self.node_at(f).links@ == sb.node_at(f).links@.update(l, succ),
            self.nodes@[pi_int] is Some,
            self.node_at(pi_int).val == sb.node_at(pi_int).val,
            self.node_at(pi_int).level == sb.node_at(pi_int).level,
            self.node_at(pi_int).links@ == sb.node_at(pi_int).links@.update(
                l,
                Some(f as usize),
            ),
            pi_int != f,
            f == f as usize as int,
            forall|p: int|
                0 <= p < sb.ord().len() ==> sb.ord()[p] == #[trigger] (sb.ord()[p] as usize)
                    as int,
        ensures
            self.levels() == sb.levels(),
            self@ == sb@,
            forall|k: int| 0 <= k < self.ord().len() ==> self.node_ok(k),
            forall|m: int| 0 <= m <= l ==> self.links_ok_at(m),
            forall|m: int, i: int|
                l + 1 <= m <= s1.head_level() && 0 <= i < s1.n_slots() && i != f
                    && s1.nodes@[i] is Some && m < s1.node_at(i).links@.len()
                    ==> #[trigger] self.link_of(i, m) == s1.link_of(i, m),
            forall|m: int| l + 1 <= m <= nl ==> self.link_of(f, m) is None,
            forall|i: int|
                0 <= i < s1.n_slots() && i != f ==> (self.nodes@[i] is Some <==> s1.nodes@[i]
                    is Some),
            forall|i: int|
                0 <= i < s1.n_slots() && i != f && s1.nodes@[i] is Some
                    ==> #[trigger] self.node_at(i).links@.len() == s1.node_at(i).links@.len(),
    {
        let ordn = sb.ord();
        let lvn = sb.levels();
        let vwn = sb@;
        assert(self.ord() == ordn);
        s1.ord().insert_ensures(ip, f);
        s1.levels().insert_ensures(ip, nl);
        s1@.insert_ensures(ip, d);
        lemma_first_ge_sorted(s1.cmp, s1@, d);
        assert(self.head_level() == sb.head_level()) by {
            if pi_int != 0 {
                assert(self.nodes@[0] == sb.nodes@[0]);
            }
        }
        if pp >= 0 {
            assert(s1.node_ok(pp));
            assert(s1@[pp] == s1.val_at(pp));
            assert(pp < ip);
            assert(ordn[pp] == s1.ord()[pp]);
            assert(sb.node_ok(pp));
            assert(lvn[pp] == s1.levels()[pp]);
            assert(sb.node_at(pi_int).links@.len() > l);
        } else {
            assert(sb.node_at(0).links@.len() > l);
        }
        assert(self.levels() =~= lvn) by {
            assert forall|k: int| 0 <= k < ordn.len() implies self.levels()[k] == lvn[k] by {
                assert(sb.node_ok(k));
                let i = ordn[k];
                if i != f && i != pi_int {
                    assert(self.nodes@[i] == sb.nodes@[i]);
                }
                assert(self.node_at(i).level == sb.node_at(i).level);
            }
        }
        assert(self@ =~= vwn) by {
            assert forall|k: int| 0 <= k < ordn.len() implies self@[k] == vwn[k] by {
                assert(sb.node_ok(k));
                let i = ordn[k];
                if i != f && i != pi_int {
                    assert(self.nodes@[i] == sb.nodes@[i]);
                }
                assert(self.node_at(i).val == sb.node_at(i).val);
            }
        }
        assert forall|k: int| 0 <= k < ordn.len() implies self.node_ok(k) by {
            assert(sb.node_ok(k));
            let i = ordn[k];
            if i != f && i != pi_int {
                assert(self.nodes@[i] == sb.nodes@[i]);
            }
            assert(self.node_at(i).links@.len() == sb.node_at(i).links@.len());
        }
        assert(self.link_of(pi_int, l) == Some(f as usize));
        assert(self.link_of(f, l) == succ);
        assert forall|i: int|
            0 <= i < s1.n_slots() && i != f && i != pi_int && s1.nodes@[i] is Some && l
                < s1.node_at(i).links@.len() implies #[trigger] self.link_of(i, l)
            == s1.link_of(i, l) by {
            assert(self.nodes@[i] == sb.nodes@[i]);
            assert(sb.link_of(i, l) == s1.link_of(i, l));
        }
        self.lemma_splice_links_at(s1, d, f, ip, nl, l, pp, pi_int, q);
        self.lemma_splice_frame(sb, s1, d, f, ip, nl, l, pp, pi_int, q, succ);
    }

    #[verifier::rlimit(100)]
    #[verifier::spinoff_prover]
    proof fn lemma_splice_frame(
        self,
        sb: Self,
        s1: Self,
        d: T,
        f: int,
        ip: int,
        nl: int,
        l: int,
        pp: int,
        pi_int: int,
        q: int,
        succ: Option<usize>,
    )
        requires
            s1.wf(),
            !s1.ord().contains(f),
            0 <= l <= nl,
            nl <= s1.head_level(),
            0 <= ip <= s1.ord().len(),
            ip == first_ge(s1.cmp, s1@, d),
            !has_equiv(s1.cmp, s1@, d),
            s1.pred_ok(d, l, pi_int, pp),
            pi_int == (if pp == -1 {
                0int
            } else {
                s1.ord()[pp]
            }),
            q == first_at_or_after(s1.levels(), pp + 1, l),
            succ == s1.link_for(q),
            sb.cmp == s1.cmp,
            sb.ord() == s1.ord().insert(ip, f),
            sb.levels() == s1.levels().insert(ip, nl),
            sb@ == s1@.insert(ip, d),
            1 <= f,
            f < sb.n_slots(),
            s1.n_slots() <= sb.n_slots(),
            forall|k: int| 0 <= k < sb.ord().len() ==> sb.node_ok(k),
            forall|m: int| 0 <= m < l ==> sb.links_ok_at(m),
            forall|m: int, i: int|
                l <= m <= s1.head_level() && 0 <= i < s1.n_slots() && i != f
                    && s1.nodes@[i] is Some && m < s1.node_at(i).links@.len()
                    ==> #[trigger] sb.link_of(i, m) == s1.link_of(i, m),
            forall|m: int| l <= m <= nl ==> sb.link_of(f, m) is None,
            forall|i: int|
                0 <= i < s1.n_slots() && i != f ==> (sb.nodes@[i] is Some <==> s1.nodes@[i]
                    is Some),
            forall|i: int|
                0 <= i < s1.n_slots() && i != f && s1.nodes@[i] is Some
                    ==> #[trigger] sb.node_at(i).links@.len() == s1.node_at(i).links@.len(),
            sb.nodes@[0] is Some,
            sb.node_at(0).val is None,
            sb.node_at(0).level as int == s1.head_level(),
            sb.node_at(0).links@.len() == s1.head_level() + 1,
            sb.nodes@[f] is Some,
            sb.node_at(f).level as int == nl,
            sb.node_at(f).val == Some(d),
            sb.node_at(f).links@.len() == nl + 1,
            self.order == sb.order,
            self.cmp == sb.cmp,
            self.nodes@.len() == sb.nodes@.len(),
            forall|j: int|
                0 <= j < sb.n_slots() && j != f && j != pi_int ==> self.nodes@[j]
                    == sb.nodes@[j],
            self.nodes@[f] is Some,
            self.node_at(f).val == sb.node_at(f).val,
            self.node_at(f).level == sb.node_at(f).level,
            self.node_at(f).links@ == sb.node_at(f).links@.update(l, succ),
            self.nodes@[pi_int] is Some,
            self.node_at(pi_int).val == sb.node_at(pi_int).val,
            self.node_at(pi_int).level == sb.node_at(pi_int).level,
            self.node_at(pi_int).links@ == sb.node_at(pi_int).links@.update(
                l,
                Some(f as usize),
            ),
            pi_int != f,
            f == f as usize as int,
            forall|p: int|
                0 <= p < sb.ord().len() ==> sb.ord()[p] == #[trigger] (sb.ord()[p] as usize)
                    as int,
        ensures
            forall|m: int| 0 <= m < l ==> self.links_ok_at(m),
            forall|m: int, i: int|
                l + 1 <= m <= s1.head_level() && 0 <= i < s1.n_slots() && i != f
                    && s1.nodes@[i] is Some && m < s1.node_at(i).links@.len()
                    ==> #[trigger] self.link_of(i, m) == s1.link_of(i, m),
            forall|m: int| l + 1 <= m <= nl ==> self.link_of(f, m) is None,
            forall|i: int|
                0 <= i < s1.n_slots() && i != f ==> (self.nodes@[i] is Some <==> s1.nodes@[i]
                    is Some),
            forall|i: int|
                0 <= i < s1.n_slots() && i != f && s1.nodes@[i] is Some
                    ==> #[trigger] self.node_at(i).links@.len() == s1.node_at(i).links@.len(),
    {
        let ordn = sb.ord();
        let lvn = sb.levels();
        s1.ord().insert_ensures(ip, f);
        s1.levels().insert_ensures(ip, nl);
        lemma_first_ge_sorted(s1.cmp, s1@, d);
        if pp >= 0 {
            assert(s1.node_ok(pp));
            assert(s1@[pp] == s1.val_at(pp));
            assert(pp < ip);
            assert(ordn[pp] == s1.ord()[pp]);
            assert(sb.node_ok(pp));
        }
        // links below this level were already correct and are untouched
        assert(self.levels() =~= lvn) by {
            assert forall|k: int| 0 <= k < ordn.len() implies self.levels()[k] == lvn[k] by {
                assert(sb.node_ok(k));
                let i = ordn[k];
                assert(1 <= i < sb.n_slots());
                if i != f && i != pi_int {
                    assert(self.nodes@[i] == sb.nodes@[i]);
                }
                assert(self.node_at(i).level == sb.node_at(i).level);
            }
        }
        assert forall|m: int| 0 <= m < l implies self.links_ok_at(m) by {
            assert(self.link_of(0, m) == sb.link_of(0, m));
            assert forall|k: int|
                0 <= k < ordn.len() && #[trigger] lvn[k] >= m implies self.link_of(ordn[k], m)
                == sb.link_of(ordn[k], m) by {
                assert(sb.node_ok(k));
                let i = ordn[k];
                assert(1 <= i < sb.n_slots());
                if i != f && i != pi_int {
                    assert(self.nodes@[i] == sb.nodes@[i]);
                }
            }
            self.lemma_links_ok_transfer(sb, m);
        }
        // links at higher levels still match the old structure
        assert forall|m: int, i: int|
            l + 1 <= m <= s1.head_level() && 0 <= i < s1.n_slots() && i != f
                && s1.nodes@[i] is Some && m < s1.node_at(i).links@.len()
                implies #[trigger] self.link_of(i, m) == s1.link_of(i, m) by {
            if i != pi_int {
                assert(self.nodes@[i] == sb.nodes@[i]);
            }
            assert(sb.link_of(i, m) == s1.link_of(i, m));
        }
        // the new node's higher links are still unset
        assert forall|m: int| l + 1 <= m <= nl implies self.link_of(f, m) is None by {
            assert(sb.link_of(f, m) is None);
        }
        assert forall|i: int|
            0 <= i < s1.n_slots() && i != f && s1.nodes@[i] is Some
                implies #[trigger] self.node_at(i).links@.len() == s1.node_at(
                i,
            ).links@.len() by {
            assert(sb.node_at(i).links@.len() == s1.node_at(i).links@.len());
            if i != pi_int {
                assert(self.nodes@[i] == sb.nodes@[i]);
            } else {
                assert(self.node_at(i).links@ == sb.node_at(i).links@.update(
                    l,
                    Some(f as usize),
                ));
            }
        }
    }

    /// Two states with the same order, levels and level-`m` links satisfy
    /// the level-`m` link condition together.
    proof fn lemma_links_ok_transfer(self, sb: Self, m: int)
        requires
            self.ord() == sb.ord(),
            self.levels() == sb.levels(),
            sb.links_ok_at(m),
            self.link_of(0, m) == sb.link_of(0, m),
            forall|k: int|
                0 <= k < sb.ord().len() && #[trigger] sb.levels()[k] >= m ==> self.link_of(
                    sb.ord()[k],
                    m,
                ) == sb.link_of(sb.ord()[k], m),
        ensures
            self.links_ok_at(m),
    {
        assert forall|p: int| true implies self.link_for(p) == sb.link_for(p) by {}
    }

    /// Replacing the value stored at one live slot leaves the whole
    /// structure intact and updates the view at that slot's position.
    #[verifier::rlimit(100)]
    #[verifier::spinoff_prover]
    proof fn lemma_value_update(fl: Self, s1: Self, i: int, p: int, w: T)
        requires
            s1.wf_shape(),
            0 <= p < s1.ord().len(),
            i == s1.ord()[p],
            fl.order == s1.order,
            fl.cmp == s1.cmp,
            fl.length == s1.length,
            fl.free == s1.free,
            fl.nodes@.len() == s1.nodes@.len(),
            forall|j: int|
                0 <= j < s1.n_slots() && j != i ==> fl.nodes@[j] == s1.nodes@[j],
            fl.nodes@[i] is Some,
            fl.node_at(i).val == Some(w),
            fl.node_at(i).level == s1.node_at(i).level,
            fl.node_at(i).links == s1.node_at(i).links,
        ensures
            fl.wf_shape(),
            fl@ == s1@.update(p, w),
            fl.levels() == s1.levels(),
            fl.comparator() == s1.comparator(),
    {
        assert(s1.node_ok(p));
        assert(fl.levels() =~= s1.levels()) by {
            assert forall|k: int|
                0 <= k < s1.ord().len() implies fl.levels()[k] == s1.levels()[k] by {
                assert(s1.node_ok(k));
                if s1.ord()[k] != i {
                    assert(fl.nodes@[s1.ord()[k]] == s1.nodes@[s1.ord()[k]]);
                }
            }
        }
        assert(fl@ =~= s1@.update(p, w)) by {
            assert forall|k: int|
                0 <= k < s1.ord().len() implies fl@[k] == s1@.update(p, w)[k] by {
                assert(s1.node_ok(k));
                if k != p {
                    assert(s1.ord()[k] != i) by {
                        assert(s1.ord().no_duplicates());
                    }
                    assert(fl.nodes@[s1.ord()[k]] == s1.nodes@[s1.ord()[k]]);
                    assert(s1@[k] == s1.val_at(k));
                }
            }
        }
        assert forall|k: int| 0 <= k < fl.ord().len() implies fl.node_ok(k) by {
            assert(s1.node_ok(k));
            if s1.ord()[k] != i {
                assert(fl.nodes@[s1.ord()[k]] == s1.nodes@[s1.ord()[k]]);
            }
            assert(fl.nodes@[0] == s1.nodes@[0]);
        }
        assert(fl.nodes@[0] == s1.nodes@[0]);
        assert forall|m: int| 0 <= m <= fl.head_level() implies fl.links_ok_at(m) by {
            assert(s1.links_ok_at(m));
            assert(fl.link_of(0, m) == s1.link_of(0, m));
            assert forall|k: int|
                0 <= k < s1.ord().len() && #[trigger] s1.levels()[k] >= m implies fl.link_of(
                s1.ord()[k],
                m,
            ) == s1.link_of(s1.ord()[k], m) by {
                assert(s1.node_ok(k));
                if s1.ord()[k] != i {
                    assert(fl.nodes@[s1.ord()[k]] == s1.nodes@[s1.ord()[k]]);
                }
            }
            fl.lemma_links_ok_transfer(s1, m);
        }
        assert(fl.wf_shape());
    }

    /// Two lists differing at most in their level generator agree on the
    /// whole structural model.
    proof fn lemma_same_but_generator(a: Self, b: Self)
        requires
            a.nodes == b.nodes,
            a.free == b.free,
            a.cmp == b.cmp,
            a.order == b.order,
            a.length == b.length,
        ensures
            a@ == b@,
            a.levels() == b.levels(),
            a.wf_arena() == b.wf_arena(),
            a.wf_shape() == b.wf_shape(),
            a.wf() == b.wf(),
    {
        assert(a@ =~= b@);
        assert(a.levels() =~= b.levels());
        assert forall|k: int| 0 <= k < a.ord().len() implies a.node_ok(k) == b.node_ok(k) by {}
        if a.wf_arena() {
            assert(b.wf_arena());
        }
        if b.wf_arena() {
            assert(a.wf_arena());
        }
        assert forall|l: int| true implies a.links_ok_at(l) == b.links_ok_at(l) by {
            assert forall|k: int|
                0 <= k < a.ord().len() && #[trigger] a.levels()[k] >= l implies (a.link_of(
                a.ord()[k],
                l,
            ) == a.link_for(first_at_or_after(a.levels(), k + 1, l)) <==> b.link_of(
                b.ord()[k],
                l,
            ) == b.link_for(first_at_or_after(b.levels(), k + 1, l))) by {}
        }
    }

    /// Place a node into a recycled or fresh arena slot and return its index.
    fn alloc_node(&mut self, node: SkipNode<T>) -> (f: usize)
        requires
            old(self).wf_arena(),
        ensures
            1 <= f as int,
            (f as int) < final(self).nodes@.len(),
            old(self).nodes@.len() <= final(self).nodes@.len() <= old(self).nodes@.len() + 1,
            (f as int) < old(self).nodes@.len() ==> old(self).nodes@[f as int] is None,
            final(self).nodes@[f as int] == Some(node),
            forall|j: int|
                0 <= j < old(self).nodes@.len() && j != f
                    ==> final(self).nodes@[j] == old(self).nodes@[j],
            forall|j: int|
                0 <= j < final(self).free@.len() ==> 1 <= #[trigger] final(self).free@[j]
                    < final(self).nodes@.len()
                    && final(self).nodes@[final(self).free@[j] as int] is None,
            final(self).free@.no_duplicates(),
            final(self).cmp == old(self).cmp,
            final(self).level_generator == old(self).level_generator,
            final(self).order == old(self).order,
            final(self).length == old(self).length,
    {
        let popped = self.free.pop();
        match popped {
            Some(fi) => {
                proof {
                    let of = old(self).free@;
                    assert forall|a: int, b: int|
                        0 <= a < of.drop_last().len() && 0 <= b < of.drop_last().len() && a
                            != b implies of.drop_last()[a] != of.drop_last()[b] by {
                        assert(of.drop_last()[a] == of[a] && of.drop_last()[b] == of[b]);
                    }
                    assert forall|j: int|
                        0 <= j < self.free@.len() implies 1 <= #[trigger] self.free@[j]
                            < self.nodes@.len() && self.nodes@[self.free@[j] as int] is None by {
                        assert(self.free@[j] == of[j]);
                        assert(of[j] != of[of.len() - 1]);
                    }
                }
                vec_set(&mut self.nodes, fi, Some(node));
                proof {
                    assert forall|j: int|
                        0 <= j < self.free@.len() implies 1 <= #[trigger] self.free@[j]
                            < self.nodes@.len() && self.nodes@[self.free@[j] as int] is None by {
                        assert(old(self).free@[j] != fi);
                    }
                }
                fi
            },
            None => {
                self.nodes.push(Some(node));
                self.nodes.len() - 1
            },
        }
    }

    /// Insert `data`, keeping ascending order.
    ///
    /// Fails with `DuplicateKey`, leaving the list unchanged, when an element
    /// comparing `Equal` to `data` is already present. Otherwise a tower
    /// level is drawn for the new node and it is spliced in after its
    /// per-level predecessors, at every level from 0 up to and including its
    /// own; the element lands at its sorted position and the length grows by
    /// one.
    #[verifier::rlimit(100)]
    pub fn insert(&mut self, data: T) -> (r: Result<(), CollectionError>)
        requires
            old(self).wf(),
        ensures
            old(self).spec_contains(data) ==> ((r matches Err(e) && e is DuplicateKey)
                && *final(self) == *old(self)),
            !old(self).spec_contains(data) ==> (r is Ok && final(self).wf() && final(self)@
                == old(self)@.insert(
                first_ge(old(self).comparator(), old(self)@, data),
                data,
            ) && final(self).comparator() == old(self).comparator()),
    {
        let ghost d = data;
        if self.contains(&data) {
            return Err(CollectionError::DuplicateKey);
        }
        let drawn = self.level_generator.random();
        proof {
            Self::lemma_same_but_generator(*self, *old(self));
        }
        let nslots = self.nodes.len();
        let hlev = self.node_ref(0).level;
        let hl_links = self.node_ref(0).links.len();
        proof {
            assert(hl_links as int == self.head_level() + 1);
            assert(hlev < usize::MAX);
        }
        let nl: usize = if drawn <= hlev {
            drawn
        } else {
            hlev
        };
        let (preds, pps) = self.find_preds(&data);
        let ghost s1 = *self;
        let ghost hl = s1.head_level();
        let ghost pp0 = pps@[0];
        let ghost ip = pp0 + 1;
        proof {
            assert(s1.pred_ok(d, 0, preds@[0] as int, pp0));
            s1.lemma_pred0_first_ge(d, preds@[0] as int, pp0);
            lemma_equiv_at_first_ge(s1.cmp, s1@, d);
            lemma_first_ge_sorted(s1.cmp, s1@, d);
            assert(!has_equiv(s1.cmp, s1@, d));
            lemma_insert_sorted(s1.cmp, s1@, d);
            assert forall|k: int| 0 <= k < s1.ord().len() implies 1 <= #[trigger] s1.ord()[k]
                < s1.n_slots() by {
                assert(s1.node_ok(k));
            }
            lemma_ord_len_bound(s1.ord(), s1.n_slots());
        }
        let node = SkipNode::new(data, nl);
        let f = self.alloc_node(node);
        let ghost ordn = s1.ord().insert(ip, f as int);
        let ghost lvn = s1.levels().insert(ip, nl as int);
        let ghost vwn = s1@.insert(ip, d);
        proof {
            s1.ord().insert_ensures(ip, f as int);
            s1.levels().insert_ensures(ip, nl as int);
            s1@.insert_ensures(ip, d);
            assert(!s1.ord().contains(f as int)) by {
                if s1.ord().contains(f as int) {
                    let k = choose|k: int|
                        0 <= k < s1.ord().len() && s1.ord()[k] == f as int;
                    assert(s1.node_ok(k));
                    assert(false);
                }
            }
            lemma_insert_nodup(s1.ord(), ip, f as int);
        }
        self.order = Ghost(ordn);
        self.length = self.length + 1;
        let nslots2 = self.nodes.len();
        proof {
            assert(self.levels() =~= lvn) by {
                assert forall|k: int| 0 <= k < lvn.len() implies self.levels()[k] == lvn[k] by {
                    if k < ip {
                        assert(ordn[k] == s1.ord()[k]);
                        assert(s1.node_ok(k));
                    } else if k == ip {
                        assert(ordn[k] == f as int);
                    } else {
                        assert(ordn[k] == s1.ord()[k - 1]);
                        assert(s1.node_ok(k - 1));
                    }
                }
            }
            assert(self@ =~= vwn) by {
                assert forall|k: int| 0 <= k < vwn.len() implies self@[k] == vwn[k] by {
                    if k < ip {
                        assert(ordn[k] == s1.ord()[k]);
                        assert(s1.node_ok(k));
                    } else if k == ip {
                        assert(ordn[k] == f as int);
                    } else {
                        assert(ordn[k] == s1.ord()[k - 1]);
                        assert(s1.node_ok(k - 1));
                    }
                }
            }
            assert forall|k: int| 0 <= k < ordn.len() implies self.node_ok(k) by {
                if k < ip {
                    assert(ordn[k] == s1.ord()[k]);
                    assert(s1.node_ok(k));
                } else if k > ip {
                    assert(ordn[k] == s1.ord()[k - 1]);
                    assert(s1.node_ok(k - 1));
                }
            }
        }
        let nlinks2 = self.node_ref(0).links.len();
        let mut l: usize = 0;
        while l <= nl
            invariant
                s1.wf(),
                nlinks2 as int == hl + 1,
                !s1.ord().contains(f as int),
                self.cmp == s1.cmp,
                hl == s1.head_level(),
                nslots as int == s1.n_slots(),
                nslots2 as int == self.n_slots(),
                s1.n_slots() <= self.n_slots(),
                nl as int <= hl,
                l <= nl + 1,
                1 <= f as int,
                (f as int) < self.n_slots(),
                (f as int) < s1.n_slots() ==> s1.nodes@[f as int] is None,
                self.nodes@[f as int] is Some,
                self.node_at(f as int).level == nl,
                self.node_at(f as int).val == Some(d),
                self.node_at(f as int).links@.len() == nl as int + 1,
                self.nodes@[0] is Some,
                self.node_at(0).val is None,
                self.node_at(0).level as int == hl,
                self.node_at(0).links@.len() == hl + 1,
                self.ord() == ordn,
                self.levels() == lvn,
                self@ == vwn,
                ordn == s1.ord().insert(ip, f as int),
                lvn == s1.levels().insert(ip, nl as int),
                vwn == s1@.insert(ip, d),
                0 <= ip <= s1.ord().len(),
                ip == first_ge(s1.cmp, s1@, d),
                !has_equiv(s1.cmp, s1@, d),
                ordn.no_duplicates(),
                self.length as int == ordn.len() as int,
                sorted_by(self.cmp, self@),
                forall|k: int| 0 <= k < ordn.len() ==> self.node_ok(k),
                forall|j: int|
                    0 <= j < self.free@.len() ==> 1 <= #[trigger] self.free@[j] < self.n_slots()
                        && self.nodes@[self.free@[j] as int] is None,
                self.free@.no_duplicates(),
                preds@.len() as int == hl + 1,
                pps@.len() as int == hl + 1,
                forall|m: int|
                    0 <= m <= hl ==> s1.pred_ok(d, m, preds@[m] as int, pps@[m]),
                pp0 == pps@[0],
                ip == pp0 + 1,
                forall|m: int| 0 <= m < l ==> self.links_ok_at(m),
                forall|m: int, i: int|
                    l as int <= m <= hl && 0 <= i < s1.n_slots() && i != f as int
                        && s1.nodes@[i] is Some && m < s1.node_at(i).links@.len()
                        ==> #[trigger] self.link_of(i, m) == s1.link_of(i, m),
                forall|m: int|
                    l as int <= m <= nl as int ==> self.link_of(f as int, m) is None,
                forall|i: int|
                    0 <= i < s1.n_slots() && i != f as int ==> (self.nodes@[i] is Some
                        <==> s1.nodes@[i] is Some),
                forall|i: int|
                    0 <= i < s1.n_slots() && i != f as int && s1.nodes@[i] is Some
                        ==> #[trigger] self.node_at(i).links@.len() == s1.node_at(
                        i,
                    ).links@.len(),
            decreases nl + 1 - l,
        {
            let ghost pp = pps@[l as int];
            let ghost pi_int: int = if pp == -1 {
                0int
            } else {
                s1.ord()[pp]
            };
            proof {
                assert(s1.pred_ok(d, l as int, preds@[l as int] as int, pps@[l as int]));
                lemma_first_ge_sorted(s1.cmp, s1@, d);
                if pp >= 0 {
                    assert(s1.node_ok(pp));
                    // the predecessor sits strictly before the insertion point
                    assert(s1@[pp] == s1.val_at(pp));
                    assert(pp < ip);
                }
            }
            let pi = preds[l];
            proof {
                assert(pi as int == pi_int);
                assert(pi_int != f as int);
                if pp >= 0 {
                    assert(ordn[pp] == s1.ord()[pp]);
                    assert(self.node_ok(pp));
                    assert(lvn[pp] == s1.levels()[pp]);
                }
                assert(s1.links_ok_at(l as int));
            }
            let succ = self.get_link(pi, l);
            let ghost q = first_at_or_after(s1.levels(), pp + 1, l as int);
            proof {
                assert(succ == s1.link_of(pi_int, l as int));
                assert(succ == s1.link_for(q));
                lemma_faa_bounds(s1.levels(), pp + 1, l as int);
                // the old successor at this level sits at or past the insertion point
                assert(q >= ip) by {
                    if q < ip {
                        assert(s1.levels()[q] >= l as int);
                        assert(s1@[q] == s1.val_at(q));
                        assert(s1.cmp.cmp_spec(s1@[q], d) == Ordering::Less);
                        assert(s1.cmp.cmp_spec(s1.val_at(q), d) != Ordering::Less);
                    }
                }
            }
            let ghost sb = *self;
            self.set_link(f, l, succ);
            self.set_link(pi, l, Some(f));
            proof {
                assert forall|p: int|
                    0 <= p < sb.ord().len() implies sb.ord()[p] == #[trigger] (sb.ord()[p] as usize) as int by {
                    assert(sb.node_ok(p));
                }
                self.lemma_splice_step(
                    sb,
                    s1,
                    d,
                    f as int,
                    ip,
                    nl as int,
                    l as int,
                    pp,
                    pi_int,
                    q,
                    succ,
                );
            }
            l = l + 1;
        }
        proof {
            // levels above the new node's tower are untouched and still
            // realize the (shifted) order
            assert forall|p: int|
                0 <= p < self.ord().len() implies self.ord()[p] == #[trigger] (self.ord()[p] as usize) as int by {
                assert(self.node_ok(p));
            }
            assert forall|m: int| 0 <= m <= hl implies self.links_ok_at(m) by {
                if m > nl as int {
                    assert forall|i: int|
                        0 <= i < s1.n_slots() && i != f as int && s1.nodes@[i] is Some && m
                            < s1.node_at(i).links@.len() implies #[trigger] self.link_of(i, m)
                        == s1.link_of(i, m) by {}
                    self.lemma_insert_high_links_at(s1, d, f as int, ip, nl as int, m);
                }
            }
            assert(self.wf());
            assert(self@ == old(self)@.insert(
                first_ge(old(self).comparator(), old(self)@, d),
                d,
            ));
        }
        Ok(())
    }

    /// One unlink step re-established: at level `l`, either the target's
    /// tower reaches `l` and its predecessor has been redirected past it, or
    /// it does not and nothing was touched; either way the level-`l` links
    /// realize the shortened order.
    #[verifier::rlimit(100)]
    #[verifier::spinoff_prover]
    proof fn lemma_unlink_step(
        self,
        sb: Self,
        s1: Self,
        v: T,
        tp: int,
        ti: int,
        l: int,
        pp: int,
        pi_int: int,
        hit: bool,
        tl: Option<usize>,
    )
        requires
            s1.wf(),
            0 <= l <= s1.head_level(),
            0 <= tp < s1.ord().len(),
            ti == s1.ord()[tp],
            tp == first_ge(s1.cmp, s1@, v),
            s1.cmp.cmp_spec(s1.val_at(tp), v) == Ordering::Equal,
            s1.pred_ok(v, l, pi_int, pp),
            pi_int == (if pp == -1 {
                0int
            } else {
                s1.ord()[pp]
            }),
            0 <= pi_int < s1.n_slots(),
            s1.nodes@[pi_int] is Some,
            sb.cmp == s1.cmp,
            sb.ord() == s1.ord().remove(tp),
            sb.levels() == s1.levels().remove(tp),
            sb@ == s1@.remove(tp),
            sb.nodes@.len() == s1.nodes@.len(),
            forall|i: int|
                0 <= i < s1.n_slots() ==> (sb.nodes@[i] is Some <==> s1.nodes@[i] is Some),
            forall|i: int|
                #![trigger sb.nodes@[i]]
                0 <= i < s1.n_slots() && s1.nodes@[i] is Some ==> sb.node_at(i).val
                    == s1.node_at(i).val && sb.node_at(i).level == s1.node_at(i).level
                    && sb.node_at(i).links@.len() == s1.node_at(i).links@.len(),
            forall|m: int, i: int|
                l <= m <= s1.head_level() && 0 <= i < s1.n_slots() && s1.nodes@[i] is Some && m
                    < s1.node_at(i).links@.len() ==> #[trigger] sb.link_of(i, m) == s1.link_of(
                    i,
                    m,
                ),
            forall|m: int| 0 <= m < l ==> sb.links_ok_at(m),
            hit == (s1.levels()[tp] >= l),
            !hit ==> self == sb,
            hit ==> ({
                &&& tl == s1.link_of(ti, l)
                &&& self.order == sb.order
                &&& self.cmp == sb.cmp
                &&& self.nodes@.len() == sb.nodes@.len()
                &&& forall|j: int|
                    0 <= j < sb.n_slots() && j != pi_int ==> self.nodes@[j] == sb.nodes@[j]
                &&& self.nodes@[pi_int] is Some
                &&& self.node_at(pi_int).val == sb.node_at(pi_int).val
                &&& self.node_at(pi_int).level == sb.node_at(pi_int).level
                &&& self.node_at(pi_int).links@ == sb.node_at(pi_int).links@.update(l, tl)
            }),
            forall|p: int|
                0 <= p < s1.ord().len() ==> s1.ord()[p] == #[trigger] (s1.ord()[p] as usize)
                    as int,
        ensures
            self.ord() == sb.ord(),
            self.levels() == sb.levels(),
            self@ == sb@,
            self.cmp == sb.cmp,
            self.nodes@.len() == sb.nodes@.len(),
            forall|i: int|
                0 <= i < s1.n_slots() ==> (self.nodes@[i] is Some <==> s1.nodes@[i] is Some),
            forall|i: int|
                #![trigger self.nodes@[i]]
                0 <= i < s1.n_slots() && s1.nodes@[i] is Some ==> self.node_at(i).val
                    == s1.node_at(i).val && self.node_at(i).level == s1.node_at(i).level
                    && self.node_at(i).links@.len() == s1.node_at(i).links@.len(),
            forall|m: int, i: int|
                l + 1 <= m <= s1.head_level() && 0 <= i < s1.n_slots() && s1.nodes@[i] is Some
                    && m < s1.node_at(i).links@.len() ==> #[trigger] self.link_of(i, m)
                    == s1.link_of(i, m),
            forall|m: int| 0 <= m <= l ==> self.links_ok_at(m),
    {
        let ordn = sb.ord();
        let lvn = sb.levels();
        s1.ord().remove_ensures(tp);
        s1.levels().remove_ensures(tp);
        s1@.remove_ensures(tp);
        lemma_first_ge_sorted(s1.cmp, s1@, v);
        assert(s1.links_ok_at(l));
        assert(s1.node_ok(tp));
        if pp >= 0 {
            assert(s1.node_ok(pp));
            assert(s1@[pp] == s1.val_at(pp));
            assert(pp < tp);
        }
        // frame: values and levels of every slot are untouched
        assert forall|i: int|
            #![trigger self.nodes@[i]]
            0 <= i < s1.n_slots() && s1.nodes@[i] is Some implies self.node_at(i).val
            == s1.node_at(i).val && self.node_at(i).level == s1.node_at(i).level
            && self.node_at(i).links@.len() == s1.node_at(i).links@.len() by {
            if hit && i == pi_int {
            } else if hit {
                assert(self.nodes@[i] == sb.nodes@[i]);
            }
        }
        assert(self.levels() =~= lvn) by {
            assert forall|k: int| 0 <= k < ordn.len() implies self.levels()[k] == lvn[k] by {
                let sk: int = if k < tp {
                    k
                } else {
                    k + 1
                };
                assert(ordn[k] == s1.ord()[sk]);
                assert(s1.node_ok(sk));
            }
        }
        assert(self@ =~= sb@) by {
            assert forall|k: int| 0 <= k < ordn.len() implies self@[k] == sb@[k] by {
                let sk: int = if k < tp {
                    k
                } else {
                    k + 1
                };
                assert(ordn[k] == s1.ord()[sk]);
                assert(s1.node_ok(sk));
                assert(sb@[k] == s1@[sk]);
            }
        }
        // higher levels are untouched
        assert forall|m: int, i: int|
            l + 1 <= m <= s1.head_level() && 0 <= i < s1.n_slots() && s1.nodes@[i] is Some && m
                < s1.node_at(i).links@.len() implies #[trigger] self.link_of(i, m)
            == s1.link_of(i, m) by {
            if hit && i == pi_int {
            } else if hit {
                assert(self.nodes@[i] == sb.nodes@[i]);
            }
            assert(sb.link_of(i, m) == s1.link_of(i, m));
        }
        // lower levels were already correct
        assert forall|m: int| 0 <= m < l implies self.links_ok_at(m) by {
            assert(self.link_of(0, m) == sb.link_of(0, m));
            assert forall|k: int|
                0 <= k < ordn.len() && #[trigger] lvn[k] >= m implies self.link_of(ordn[k], m)
                == sb.link_of(ordn[k], m) by {
                let sk: int = if k < tp {
                    k
                } else {
                    k + 1
                };
                assert(ordn[k] == s1.ord()[sk]);
                assert(s1.node_ok(sk));
            }
            self.lemma_links_ok_transfer(sb, m);
        }
        self.lemma_unlink_links_at(sb, s1, v, tp, ti, l, pp, pi_int, hit, tl);
    }

    /// The level-`l` links realize the shortened order after the unlink
    /// step at that level.
    #[verifier::rlimit(100)]
    #[verifier::spinoff_prover]
    proof fn lemma_unlink_links_at(
        self,
        sb: Self,
        s1: Self,
        v: T,
        tp: int,
        ti: int,
        l: int,
        pp: int,
        pi_int: int,
        hit: bool,
        tl: Option<usize>,
    )
        requires
            s1.wf(),
            0 <= l <= s1.head_level(),
            0 <= tp < s1.ord().len(),
            ti == s1.ord()[tp],
            tp == first_ge(s1.cmp, s1@, v),
            s1.cmp.cmp_spec(s1.val_at(tp), v) == Ordering::Equal,
            s1.pred_ok(v, l, pi_int, pp),
            pi_int == (if pp == -1 {
                0int
            } else {
                s1.ord()[pp]
            }),
            0 <= pi_int < s1.n_slots(),
            s1.nodes@[pi_int] is Some,
            sb.cmp == s1.cmp,
            sb.ord() == s1.ord().remove(tp),
            sb.levels() == s1.levels().remove(tp),
            sb@ == s1@.remove(tp),
            sb.nodes@.len() == s1.nodes@.len(),
            forall|i: int|
                0 <= i < s1.n_slots() ==> (sb.nodes@[i] is Some <==> s1.nodes@[i] is Some),
            forall|i: int|
                #![trigger sb.nodes@[i]]
                0 <= i < s1.n_slots() && s1.nodes@[i] is Some ==> sb.node_at(i).val
                    == s1.node_at(i).val && sb.node_at(i).level == s1.node_at(i).level
                    && sb.node_at(i).links@.len() == s1.node_at(i).links@.len(),
            forall|m: int, i: int|
                l <= m <= s1.head_level() && 0 <= i < s1.n_slots() && s1.nodes@[i] is Some && m
                    < s1.node_at(i).links@.len() ==> #[trigger] sb.link_of(i, m) == s1.link_of(
                    i,
                    m,
                ),
            forall|m: int| 0 <= m < l ==> sb.links_ok_at(m),
            hit == (s1.levels()[tp] >= l),
            !hit ==> self == sb,
            hit ==> ({
                &&& tl == s1.link_of(ti, l)
                &&& self.order == sb.order
                &&& self.cmp == sb.cmp
                &&& self.nodes@.len() == sb.nodes@.len()
                &&& forall|j: int|
                    0 <= j < sb.n_slots() && j != pi_int ==> self.nodes@[j] == sb.nodes@[j]
                &&& self.nodes@[pi_int] is Some
                &&& self.node_at(pi_int).val == sb.node_at(pi_int).val
                &&& self.node_at(pi_int).level == sb.node_at(pi_int).level
                &&& self.node_at(pi_int).links@ == sb.node_at(pi_int).links@.update(l, tl)
            }),
            forall|p: int|
                0 <= p < s1.ord().len() ==> s1.ord()[p] == #[trigger] (s1.ord()[p] as usize)
                    as int,
        ensures
            self.links_ok_at(l),
    {
        let ordn = sb.ord();
        let lvn = sb.levels();
        s1.ord().remove_ensures(tp);
        s1.levels().remove_ensures(tp);
        s1@.remove_ensures(tp);
        lemma_first_ge_sorted(s1.cmp, s1@, v);
        assert(s1.links_ok_at(l));
        assert(s1.node_ok(tp));
        if pp >= 0 {
            assert(s1.node_ok(pp));
            assert(s1@[pp] == s1.val_at(pp));
            assert(pp < tp);
        }
        assert(self.ord() == ordn);
        assert(self.levels() =~= lvn) by {
            assert forall|k: int| 0 <= k < ordn.len() implies self.levels()[k] == lvn[k] by {
                let sk: int = if k < tp {
                    k
                } else {
                    k + 1
                };
                assert(ordn[k] == s1.ord()[sk]);
                assert(s1.node_ok(sk));
            }
        }
        // level l now realizes the shortened order
        let hl = s1.head_level();
        assert(self.links_ok_at(l)) by {
            // head clause
            let qh = first_at_or_after(s1.levels(), 0, l);
            lemma_faa_bounds(s1.levels(), 0, l);
            lemma_faa_remove(s1.levels(), tp, 0, l);
            assert(self.link_of(0, l) == self.link_for(
                first_at_or_after(lvn, 0, l),
            )) by {
                if pp == -1 && hit {
                    // the head was the predecessor and was redirected
                    assert(pi_int == 0);
                    assert(qh == tp) by {
                        if qh < tp {
                            assert(s1.levels()[qh] >= l);
                            assert(s1@[qh] == s1.val_at(qh));
                            assert(s1.cmp.cmp_spec(s1.val_at(qh), v) != Ordering::Less);
                            assert(s1.cmp.cmp_spec(s1@[qh], v) == Ordering::Less);
                        }
                        if qh > tp {
                            assert(s1.levels()[tp] < l);
                        }
                    }
                    let q2 = first_at_or_after(s1.levels(), tp + 1, l);
                    lemma_faa_bounds(s1.levels(), tp + 1, l);
                    assert(first_at_or_after(lvn, 0, l) == q2 - 1);
                    assert(self.link_of(0, l) == tl);
                    assert(tl == s1.link_for(q2));
                    assert(self.link_for(q2 - 1) == s1.link_for(q2)) by {
                        if q2 < s1.ord().len() {
                            assert(ordn[q2 - 1] == s1.ord()[q2]);
                        }
                    }
                } else {
                    // the head keeps its link
                    assert(self.link_of(0, l) == s1.link_of(0, l)) by {
                        assert(l < s1.node_at(0).links@.len());
                        assert(sb.link_of(0, l) == s1.link_of(0, l));
                        if hit {
                            assert(pi_int != 0);
                            assert(self.nodes@[0] == sb.nodes@[0]);
                        }
                    }
                    assert(qh != tp) by {
                        if qh == tp {
                            if pp == -1 {
                                assert(hit);
                            } else {
                                // a positive pred at level l sits before tp,
                                // so the head's first level-l node is at most pp
                                assert(s1.levels()[pp] >= l);
                                assert(qh <= pp) by {
                                    if qh > pp {
                                        assert(s1.levels()[pp] < l);
                                    }
                                }
                            }
                        }
                    }
                    assert(self.link_for(first_at_or_after(lvn, 0, l)) == s1.link_for(
                        qh,
                    )) by {
                        if qh < tp {
                            assert(ordn[qh] == s1.ord()[qh]);
                        } else {
                            assert(first_at_or_after(lvn, 0, l) == qh - 1);
                            if qh < s1.ord().len() {
                                assert(ordn[qh - 1] == s1.ord()[qh]);
                            }
                        }
                    }
                }
            }
            // per-node clause
            assert forall|k: int|
                0 <= k < ordn.len() && #[trigger] lvn[k] >= l implies self.link_of(ordn[k], l)
                == self.link_for(first_at_or_after(lvn, k + 1, l)) by {
                self.lemma_unlink_node_clause(sb, s1, v, tp, ti, l, pp, pi_int, hit, tl, k);
            }
        }
    }

    /// The per-node clause of the level-`l` link condition after one unlink
    /// step.
    #[verifier::rlimit(100)]
    #[verifier::spinoff_prover]
    proof fn lemma_unlink_node_clause(
        self,
        sb: Self,
        s1: Self,
        v: T,
        tp: int,
        ti: int,
        l: int,
        pp: int,
        pi_int: int,
        hit: bool,
        tl: Option<usize>,
        k: int,
    )
        requires
            s1.wf(),
            0 <= l <= s1.head_level(),
            0 <= tp < s1.ord().len(),
            ti == s1.ord()[tp],
            tp == first_ge(s1.cmp, s1@, v),
            s1.cmp.cmp_spec(s1.val_at(tp), v) == Ordering::Equal,
            s1.pred_ok(v, l, pi_int, pp),
            pi_int == (if pp == -1 {
                0int
            } else {
                s1.ord()[pp]
            }),
            0 <= pi_int < s1.n_slots(),
            s1.nodes@[pi_int] is Some,
            sb.cmp == s1.cmp,
            sb.ord() == s1.ord().remove(tp),
            sb.levels() == s1.levels().remove(tp),
            sb@ == s1@.remove(tp),
            sb.nodes@.len() == s1.nodes@.len(),
            forall|i: int|
                0 <= i < s1.n_slots() ==> (sb.nodes@[i] is Some <==> s1.nodes@[i] is Some),
            forall|i: int|
                #![trigger sb.nodes@[i]]
                0 <= i < s1.n_slots() && s1.nodes@[i] is Some ==> sb.node_at(i).val
                    == s1.node_at(i).val && sb.node_at(i).level == s1.node_at(i).level
                    && sb.node_at(i).links@.len() == s1.node_at(i).links@.len(),
            forall|m: int, i: int|
                l <= m <= s1.head_level() && 0 <= i < s1.n_slots() && s1.nodes@[i] is Some && m
                    < s1.node_at(i).links@.len() ==> #[trigger] sb.link_of(i, m) == s1.link_of(
                    i,
                    m,
                ),
            hit == (s1.levels()[tp] >= l),
            !hit ==> self == sb,
            hit ==> ({
                &&& tl == s1.link_of(ti, l)
                &&& self.order == sb.order
                &&& self.cmp == sb.cmp
                &&& self.nodes@.len() == sb.nodes@.len()
                &&& forall|j: int|
                    0 <= j < sb.n_slots() && j != pi_int ==> self.nodes@[j] == sb.nodes@[j]
                &&& self.nodes@[pi_int] is Some
                &&& self.node_at(pi_int).val == sb.node_at(pi_int).val
                &&& self.node_at(pi_int).level == sb.node_at(pi_int).level
                &&& self.node_at(pi_int).links@ == sb.node_at(pi_int).links@.update(l, tl)
            }),
            forall|p: int|
                0 <= p < s1.ord().len() ==> s1.ord()[p] == #[trigger] (s1.ord()[p] as usize)
                    as int,
            0 <= k < sb.ord().len(),
            sb.levels()[k] >= l,
        ensures
            self.link_of(sb.ord()[k], l) == self.link_for(
                first_at_or_after(sb.levels(), k + 1, l),
            ),
    {
        let ordn = sb.ord();
        let lvn = sb.levels();
        s1.ord().remove_ensures(tp);
        s1.levels().remove_ensures(tp);
        s1@.remove_ensures(tp);
        lemma_first_ge_sorted(s1.cmp, s1@, v);
        assert(s1.links_ok_at(l));
        assert(s1.node_ok(tp));
        if pp >= 0 {
            assert(s1.node_ok(pp));
            assert(s1@[pp] == s1.val_at(pp));
            assert(pp < tp);
        }
        let hl = s1.head_level();
                let sk: int = if k < tp {
                    k
                } else {
                    k + 1
                };
                assert(ordn[k] == s1.ord()[sk]);
                assert(lvn[k] == s1.levels()[sk]);
                assert(s1.node_ok(sk));
                lemma_faa_remove(s1.levels(), tp, k + 1, l);
                if pp >= 0 && sk == pp && hit {
                    // the redirected predecessor
                    assert(ordn[k] == pi_int);
                    assert(self.link_of(pi_int, l) == tl);
                    let q = first_at_or_after(s1.levels(), pp + 1, l);
                    lemma_faa_bounds(s1.levels(), pp + 1, l);
                    assert(q == tp) by {
                        if q < tp {
                            assert(s1.levels()[q] >= l);
                            assert(s1@[q] == s1.val_at(q));
                            assert(s1.cmp.cmp_spec(s1.val_at(q), v) != Ordering::Less);
                            assert(s1.cmp.cmp_spec(s1@[q], v) == Ordering::Less);
                        }
                        if q > tp {
                            assert(s1.levels()[tp] < l);
                        }
                    }
                    let q2 = first_at_or_after(s1.levels(), tp + 1, l);
                    lemma_faa_bounds(s1.levels(), tp + 1, l);
                    assert(k + 1 <= tp);
                    assert(first_at_or_after(lvn, k + 1, l) == q2 - 1);
                    assert(tl == s1.link_for(q2));
                    assert(self.link_for(q2 - 1) == s1.link_for(q2)) by {
                        if q2 < s1.ord().len() {
                            assert(ordn[q2 - 1] == s1.ord()[q2]);
                        }
                    }
                } else {
                    self.lemma_unlink_untouched_clause(
                        sb,
                        s1,
                        v,
                        tp,
                        ti,
                        l,
                        pp,
                        pi_int,
                        hit,
                        tl,
                        k,
                    );
                }
    }

    /// The link condition for a node whose link was not redirected by the
    /// unlink step.
    #[verifier::rlimit(100)]
    #[verifier::spinoff_prover]
    proof fn lemma_unlink_untouched_clause(
        self,
        sb: Self,
        s1: Self,
        v: T,
        tp: int,
        ti: int,
        l: int,
        pp: int,
        pi_int: int,
        hit: bool,
        tl: Option<usize>,
        k: int,
    )
        requires
            s1.wf(),
            0 <= l <= s1.head_level(),
            0 <= tp < s1.ord().len(),
            ti == s1.ord()[tp],
            tp == first_ge(s1.cmp, s1@, v),
            s1.cmp.cmp_spec(s1.val_at(tp), v) == Ordering::Equal,
            s1.pred_ok(v, l, pi_int, pp),
            pi_int == (if pp == -1 {
                0int
            } else {
                s1.ord()[pp]
            }),
            0 <= pi_int < s1.n_slots(),
            s1.nodes@[pi_int] is Some,
            sb.cmp == s1.cmp,
            sb.ord() == s1.ord().remove(tp),
            sb.levels() == s1.levels().remove(tp),
            sb.nodes@.len() == s1.nodes@.len(),
            forall|m: int, i: int|
                l <= m <= s1.head_level() && 0 <= i < s1.n_slots() && s1.nodes@[i] is Some && m
                    < s1.node_at(i).links@.len() ==> #[trigger] sb.link_of(i, m) == s1.link_of(
                    i,
                    m,
                ),
            hit == (s1.levels()[tp] >= l),
            !hit ==> self == sb,
            hit ==> ({
                &&& tl == s1.link_of(ti, l)
                &&& self.order == sb.order
                &&& self.cmp == sb.cmp
                &&& self.nodes@.len() == sb.nodes@.len()
                &&& forall|j: int|
                    0 <= j < sb.n_slots() && j != pi_int ==> self.nodes@[j] == sb.nodes@[j]
                &&& self.nodes@[pi_int] is Some
                &&& self.node_at(pi_int).val == sb.node_at(pi_int).val
                &&& self.node_at(pi_int).level == sb.node_at(pi_int).level
                &&& self.node_at(pi_int).links@ == sb.node_at(pi_int).links@.update(l, tl)
            }),
            forall|p: int|
                0 <= p < s1.ord().len() ==> s1.ord()[p] == #[trigger] (s1.ord()[p] as usize)
                    as int,
            0 <= k < sb.ord().len(),
            sb.levels()[k] >= l,
            !(pp >= 0 && (if k < tp {
                k
            } else {
                k + 1
            }) == pp && hit),
        ensures
            self.link_of(sb.ord()[k], l) == self.link_for(
                first_at_or_after(sb.levels(), k + 1, l),
            ),
    {
        if hit {
            self.lemma_unlink_untouched_clause_hit(sb, s1, v, tp, ti, l, pp, pi_int, hit, tl, k);
        } else {
            self.lemma_unlink_untouched_clause_miss(sb, s1, v, tp, ti, l, pp, pi_int, hit, tl, k);
        }
    }

    /// The link condition for a node whose link was not redirected by the
    /// unlink step.
    #[verifier::rlimit(100)]
    #[verifier::spinoff_prover]
    proof fn lemma_unlink_untouched_clause_hit(
        self,
        sb: Self,
        s1: Self,
        v: T,
        tp: int,
        ti: int,
        l: int,
        pp: int,
        pi_int: int,
        hit: bool,
        tl: Option<usize>,
        k: int,
    )
        requires
            s1.wf(),
            0 <= l <= s1.head_level(),
            0 <= tp < s1.ord().len(),
            ti == s1.ord()[tp],
            tp == first_ge(s1.cmp, s1@, v),
            s1.cmp.cmp_spec(s1.val_at(tp), v) == Ordering::Equal,
            s1.pred_ok(v, l, pi_int, pp),
            pi_int == (if pp == -1 {
                0int
            } else {
                s1.ord()[pp]
            }),
            0 <= pi_int < s1.n_slots(),
            s1.nodes@[pi_int] is Some,
            sb.cmp == s1.cmp,
            sb.ord() == s1.ord().remove(tp),
            sb.levels() == s1.levels().remove(tp),
            sb.nodes@.len() == s1.nodes@.len(),
            forall|m: int, i: int|
                l <= m <= s1.head_level() && 0 <= i < s1.n_slots() && s1.nodes@[i] is Some && m
                    < s1.node_at(i).links@.len() ==> #[trigger] sb.link_of(i, m) == s1.link_of(
                    i,
                    m,
                ),
            hit == (s1.levels()[tp] >= l),
            hit,
            ({
                &&& tl == s1.link_of(ti, l)
                &&& self.order == sb.order
                &&& self.cmp == sb.cmp
                &&& self.nodes@.len() == sb.nodes@.len()
                &&& forall|j: int|
                    0 <= j < sb.n_slots() && j != pi_int ==> self.nodes@[j] == sb.nodes@[j]
                &&& self.nodes@[pi_int] is Some
                &&& self.node_at(pi_int).val == sb.node_at(pi_int).val
                &&& self.node_at(pi_int).level == sb.node_at(pi_int).level
                &&& self.node_at(pi_int).links@ == sb.node_at(pi_int).links@.update(l, tl)
            }),
            forall|p: int|
                0 <= p < s1.ord().len() ==> s1.ord()[p] == #[trigger] (s1.ord()[p] as usize)
                    as int,
            0 <= k < sb.ord().len(),
            sb.levels()[k] >= l,
            !(pp >= 0 && (if k < tp {
                k
            } else {
                k + 1
            }) == pp && hit),
        ensures
            self.link_of(sb.ord()[k], l) == self.link_for(
                first_at_or_after(sb.levels(), k + 1, l),
            ),
    {
        let ordn = sb.ord();
        let lvn = sb.levels();
        s1.ord().remove_ensures(tp);
        s1.levels().remove_ensures(tp);
        lemma_first_ge_sorted(s1.cmp, s1@, v);
        assert(s1.links_ok_at(l));
        assert(s1.node_ok(tp));
        if pp >= 0 {
            assert(s1.node_ok(pp));
            assert(s1@[pp] == s1.val_at(pp));
            assert(pp < tp);
        }
        let sk: int = if k < tp {
            k
        } else {
            k + 1
        };
        assert(ordn[k] == s1.ord()[sk]);
        assert(lvn[k] == s1.levels()[sk]);
        assert(s1.node_ok(sk));
        lemma_faa_remove(s1.levels(), tp, k + 1, l);
                    assert(self.link_of(ordn[k], l) == s1.link_of(s1.ord()[sk], l)) by {
                        if hit && ordn[k] != pi_int {
                            assert(self.nodes@[ordn[k]] == sb.nodes@[ordn[k]]);
                        }
                        assert(sb.link_of(ordn[k], l) == s1.link_of(ordn[k], l));
                    }
                    let qk = first_at_or_after(s1.levels(), sk + 1, l);
                    lemma_faa_bounds(s1.levels(), sk + 1, l);
                    assert(s1.link_of(s1.ord()[sk], l) == s1.link_for(qk));
                    Self::lemma_unlink_next_not_target(s1, v, tp, l, pp, pi_int, sk, hit);
                    assert(qk != tp);
                    self.lemma_unlink_shift(s1, tp, k, l);
    }

    /// The link condition for a node whose link was not redirected by the
    /// unlink step.
    #[verifier::rlimit(100)]
    #[verifier::spinoff_prover]
    proof fn lemma_unlink_untouched_clause_miss(
        self,
        sb: Self,
        s1: Self,
        v: T,
        tp: int,
        ti: int,
        l: int,
        pp: int,
        pi_int: int,
        hit: bool,
        tl: Option<usize>,
        k: int,
    )
        requires
            s1.wf(),
            0 <= l <= s1.head_level(),
            0 <= tp < s1.ord().len(),
            ti == s1.ord()[tp],
            tp == first_ge(s1.cmp, s1@, v),
            s1.cmp.cmp_spec(s1.val_at(tp), v) == Ordering::Equal,
            s1.pred_ok(v, l, pi_int, pp),
            pi_int == (if pp == -1 {
                0int
            } else {
                s1.ord()[pp]
            }),
            0 <= pi_int < s1.n_slots(),
            s1.nodes@[pi_int] is Some,
            sb.cmp == s1.cmp,
            sb.ord() == s1.ord().remove(tp),
            sb.levels() == s1.levels().remove(tp),
            sb.nodes@.len() == s1.nodes@.len(),
            forall|m: int, i: int|
                l <= m <= s1.head_level() && 0 <= i < s1.n_slots() && s1.nodes@[i] is Some && m
                    < s1.node_at(i).links@.len() ==> #[trigger] sb.link_of(i, m) == s1.link_of(
                    i,
                    m,
                ),
            hit == (s1.levels()[tp] >= l),
            !hit,
            self == sb,
            forall|p: int|
                0 <= p < s1.ord().len() ==> s1.ord()[p] == #[trigger] (s1.ord()[p] as usize)
                    as int,
            0 <= k < sb.ord().len(),
            sb.levels()[k] >= l,
            !(pp >= 0 && (if k < tp {
                k
            } else {
                k + 1
            }) == pp && hit),
        ensures
            self.link_of(sb.ord()[k], l) == self.link_for(
                first_at_or_after(sb.levels(), k + 1, l),
            ),
    {
        let ordn = sb.ord();
        let lvn = sb.levels();
        s1.ord().remove_ensures(tp);
        s1.levels().remove_ensures(tp);
        lemma_first_ge_sorted(s1.cmp, s1@, v);
        assert(s1.links_ok_at(l));
        assert(s1.node_ok(tp));
        if pp >= 0 {
            assert(s1.node_ok(pp));
            assert(s1@[pp] == s1.val_at(pp));
            assert(pp < tp);
        }
        let sk: int = if k < tp {
            k
        } else {
            k + 1
        };
        assert(ordn[k] == s1.ord()[sk]);
        assert(lvn[k] == s1.levels()[sk]);
        assert(s1.node_ok(sk));
        lemma_faa_remove(s1.levels(), tp, k + 1, l);
                    assert(self.link_of(ordn[k], l) == s1.link_of(s1.ord()[sk], l)) by {
                        if hit && ordn[k] != pi_int {
                            assert(self.nodes@[ordn[k]] == sb.nodes@[ordn[k]]);
                        }
                        assert(sb.link_of(ordn[k], l) == s1.link_of(ordn[k], l));
                    }
                    let qk = first_at_or_after(s1.levels(), sk + 1, l);
                    lemma_faa_bounds(s1.levels(), sk + 1, l);
                    assert(s1.link_of(s1.ord()[sk], l) == s1.link_for(qk));
                    Self::lemma_unlink_next_not_target(s1, v, tp, l, pp, pi_int, sk, hit);
                    assert(qk != tp);
                    self.lemma_unlink_shift(s1, tp, k, l);
    }

    /// How a surviving node's level-`l` link target shifts across the
    /// removal of the order entry at `tp`.
    #[verifier::rlimit(100)]
    #[verifier::spinoff_prover]
    proof fn lemma_unlink_shift(self, s1: Self, tp: int, k: int, l: int)
        requires
            s1.wf(),
            0 <= tp < s1.ord().len(),
            self.ord() == s1.ord().remove(tp),
            0 <= k < self.ord().len(),
            first_at_or_after(
                s1.levels(),
                (if k < tp {
                    k
                } else {
                    k + 1
                }) + 1,
                l,
            ) != tp,
            forall|p: int|
                0 <= p < s1.ord().len() ==> s1.ord()[p] == #[trigger] (s1.ord()[p] as usize)
                    as int,
        ensures
            self.link_for(
                first_at_or_after(s1.levels().remove(tp), k + 1, l),
            ) == s1.link_for(
                first_at_or_after(
                    s1.levels(),
                    (if k < tp {
                        k
                    } else {
                        k + 1
                    }) + 1,
                    l,
                ),
            ),
    {
        let ordn = self.ord();
        let lvn = s1.levels().remove(tp);
        s1.ord().remove_ensures(tp);
        s1.levels().remove_ensures(tp);
        let sk: int = if k < tp {
            k
        } else {
            k + 1
        };
        let qk = first_at_or_after(s1.levels(), sk + 1, l);
        lemma_faa_bounds(s1.levels(), sk + 1, l);
        if sk + 1 <= s1.ord().len() - 1 {
            lemma_faa_remove(s1.levels(), tp, sk + 1, l);
        } else {
            assert(qk == s1.ord().len());
            assert(k + 1 == ordn.len());
        }
        if sk < tp {
            assert(k + 1 <= tp);
            if qk < tp {
                assert(first_at_or_after(lvn, k + 1, l) == qk);
                assert(ordn[qk] == s1.ord()[qk]);
            } else {
                assert(first_at_or_after(lvn, k + 1, l) == qk - 1);
                if qk < s1.ord().len() {
                    assert(ordn[qk - 1] == s1.ord()[qk]);
                }
            }
        } else {
            assert(k + 1 > tp);
            if sk + 1 <= s1.ord().len() - 1 {
                assert(first_at_or_after(lvn, k + 1, l) == qk - 1);
            } else {
                assert(first_at_or_after(lvn, k + 1, l) == lvn.len() as int);
            }
            assert(qk > tp);
            if qk < s1.ord().len() {
                assert(ordn[qk - 1] == s1.ord()[qk]);
            }
        }
    }

    /// A tall-enough node other than the level-`l` predecessor never has the
    /// removal target as its next node at level `l`.
    #[verifier::rlimit(100)]
    #[verifier::spinoff_prover]
    proof fn lemma_unlink_next_not_target(
        s1: Self,
        v: T,
        tp: int,
        l: int,
        pp: int,
        pi_int: int,
        sk: int,
        hit: bool,
    )
        requires
            s1.wf(),
            0 <= l <= s1.head_level(),
            0 <= tp < s1.ord().len(),
            tp == first_ge(s1.cmp, s1@, v),
            s1.cmp.cmp_spec(s1.val_at(tp), v) == Ordering::Equal,
            s1.pred_ok(v, l, pi_int, pp),
            0 <= sk < s1.ord().len(),
            s1.levels()[sk] >= l,
            sk != tp,
            hit == (s1.levels()[tp] >= l),
            !(pp >= 0 && sk == pp && hit),
        ensures
            first_at_or_after(s1.levels(), sk + 1, l) != tp,
    {
        lemma_first_ge_sorted(s1.cmp, s1@, v);
        let qk = first_at_or_after(s1.levels(), sk + 1, l);
        lemma_faa_bounds(s1.levels(), sk + 1, l);
        if qk == tp {
            // its next would be the target, making it the last level-l node
            // that is Less: the predecessor
            assert(s1.levels()[tp] >= l);
            assert(hit);
            assert(s1@[sk] == s1.val_at(sk));
            if sk < tp {
                assert(s1.cmp.cmp_spec(s1.val_at(sk), v) == Ordering::Less);
                assert(pp >= 0) by {
                    if pp == -1 {
                        assert(s1.cmp.cmp_spec(s1.val_at(sk), v) != Ordering::Less);
                    }
                }
                assert(sk <= pp) by {
                    if sk > pp {
                        assert(s1.cmp.cmp_spec(s1.val_at(sk), v) != Ordering::Less);
                    }
                }
                assert(sk == pp) by {
                    if sk < pp {
                        assert(s1.node_ok(pp));
                        assert(s1@[pp] == s1.val_at(pp));
                        assert(s1.levels()[pp] >= l);
                        assert(pp < qk);
                        assert(s1.levels()[pp] < l);
                    }
                }
                assert(false);
            } else {
                assert(qk >= sk + 1);
                assert(false);
            }
        }
    }

    /// Empty one arena slot, surrendering what it held.
    fn take_slot(&mut self, i: usize) -> (r: Option<SkipNode<T>>)
        requires
            0 <= i < old(self).n_slots(),
        ensures
            r == old(self).nodes@[i as int],
            final(self).nodes@ == old(self).nodes@.update(i as int, None),
            final(self).free == old(self).free,
            final(self).cmp == old(self).cmp,
            final(self).level_generator == old(self).level_generator,
            final(self).order == old(self).order,
            final(self).length == old(self).length,
    {
        let slot = &mut self.nodes[i];
        slot.take()
    }

    /// Unlink the node `ti` sitting at order position `tp`: at every level
    /// where its predecessor still links to it, redirect that link past it;
    /// then free its slot and surrender its value.
    #[verifier::rlimit(100)]
    fn unlink_at(
        &mut self,
        preds: &Vec<usize>,
        Ghost(pps): Ghost<Seq<int>>,
        ti: usize,
        Ghost(tp): Ghost<int>,
        Ghost(v): Ghost<T>,
    ) -> (r: T)
        requires
            old(self).wf(),
            preds@.len() == old(self).head_level() + 1,
            pps.len() == old(self).head_level() + 1,
            forall|l: int|
                0 <= l <= old(self).head_level() ==> old(self).pred_ok(
                    v,
                    l,
                    preds@[l] as int,
                    pps[l],
                ),
            0 <= tp < old(self).ord().len(),
            ti as int == old(self).ord()[tp],
            tp == first_ge(old(self).comparator(), old(self)@, v),
            old(self).comparator().cmp_spec(old(self)@[tp], v) == Ordering::Equal,
        ensures
            r == old(self)@[tp],
            final(self)@ == old(self)@.remove(tp),
            final(self).wf(),
            final(self).comparator() == old(self).comparator(),
    {
        let ghost s1 = *self;
        let ghost hl = s1.head_level();
        let nslots = self.nodes.len();
        let nlinks = self.node_ref(0).links.len();
        let ghost ordn = s1.ord().remove(tp);
        let ghost lvn = s1.levels().remove(tp);
        let ghost vwn = s1@.remove(tp);
        proof {
            s1.ord().remove_ensures(tp);
            s1.levels().remove_ensures(tp);
            s1@.remove_ensures(tp);
            lemma_remove_nodup(s1.ord(), tp);
            lemma_remove_sorted(s1.cmp, s1@, tp);
            assert(s1.node_ok(tp));
            assert(s1@[tp] == s1.val_at(tp));
            assert(vwn =~= s1@.remove(tp));
        }
        self.order = Ghost(ordn);
        self.length = self.length - 1;
        proof {
            assert(self.levels() =~= lvn) by {
                assert forall|k: int| 0 <= k < ordn.len() implies self.levels()[k] == lvn[k] by {
                    let sk: int = if k < tp {
                        k
                    } else {
                        k + 1
                    };
                    assert(ordn[k] == s1.ord()[sk]);
                    assert(s1.node_ok(sk));
                }
            }
            assert(self@ =~= vwn) by {
                assert forall|k: int| 0 <= k < ordn.len() implies self@[k] == vwn[k] by {
                    let sk: int = if k < tp {
                        k
                    } else {
                        k + 1
                    };
                    assert(ordn[k] == s1.ord()[sk]);
                    assert(s1.node_ok(sk));
                }
            }
        }
        let mut l: usize = 0;
        while l < nlinks
            invariant
                s1.wf(),
                nslots as int == s1.n_slots(),
                nlinks as int == hl + 1,
                hl == s1.head_level(),
                l <= nlinks,
                0 <= tp < s1.ord().len(),
                ti as int == s1.ord()[tp],
                tp == first_ge(s1.cmp, s1@, v),
                s1.cmp.cmp_spec(s1.val_at(tp), v) == Ordering::Equal,
                preds@.len() as int == hl + 1,
                pps.len() as int == hl + 1,
                forall|m: int| 0 <= m <= hl ==> s1.pred_ok(v, m, preds@[m] as int, pps[m]),
                ordn == s1.ord().remove(tp),
                lvn == s1.levels().remove(tp),
                vwn == s1@.remove(tp),
                self.ord() == ordn,
                self.levels() == lvn,
                self@ == vwn,
                self.cmp == s1.cmp,
                self.level_generator == s1.level_generator,
                self.length as int == ordn.len() as int,
                self.free == s1.free,
                self.nodes@.len() == s1.nodes@.len(),
                forall|i: int|
                    0 <= i < s1.n_slots() ==> (self.nodes@[i] is Some <==> s1.nodes@[i]
                        is Some),
                forall|i: int|
                    #![trigger self.nodes@[i]]
                    0 <= i < s1.n_slots() && s1.nodes@[i] is Some ==> self.node_at(i).val
                        == s1.node_at(i).val && self.node_at(i).level == s1.node_at(i).level
                        && self.node_at(i).links@.len() == s1.node_at(i).links@.len(),
                forall|m: int, i: int|
                    l as int <= m <= hl && 0 <= i < s1.n_slots() && s1.nodes@[i] is Some && m
                        < s1.node_at(i).links@.len() ==> #[trigger] self.link_of(i, m)
                        == s1.link_of(i, m),
                forall|m: int| 0 <= m < l ==> self.links_ok_at(m),
            decreases nlinks - l,
        {
            let ghost pp = pps[l as int];
            let ghost pi_int: int = if pp == -1 {
                0int
            } else {
                s1.ord()[pp]
            };
            proof {
                assert(s1.pred_ok(v, l as int, preds@[l as int] as int, pps[l as int]));
                lemma_first_ge_sorted(s1.cmp, s1@, v);
                if pp >= 0 {
                    assert(s1.node_ok(pp));
                    assert(s1@[pp] == s1.val_at(pp));
                    assert(pp < tp);
                }
                assert(s1.links_ok_at(l as int));
            }
            let pi = preds[l];
            proof {
                assert(pi as int == pi_int);
                if pp >= 0 {
                    assert(self.node_at(pi_int).links@.len() == s1.node_at(
                        pi_int,
                    ).links@.len());
                    assert(s1.node_at(pi_int).links@.len() == s1.levels()[pp] + 1);
                } else {
                    assert(self.node_at(0).links@.len() == s1.node_at(0).links@.len());
                }
            }
            let ln = self.get_link(pi, l);
            let hit = match ln {
                Some(x) => x == ti,
                None => false,
            };
            let ghost q = first_at_or_after(s1.levels(), pp + 1, l as int);
            proof {
                assert(self.link_of(pi_int, l as int) == s1.link_of(pi_int, l as int));
                assert(ln == s1.link_for(q));
                lemma_faa_bounds(s1.levels(), pp + 1, l as int);
                assert forall|p: int|
                    0 <= p < s1.ord().len() implies s1.ord()[p] == #[trigger] (s1.ord()[p]
                    as usize) as int by {
                    assert(s1.node_ok(p));
                }
                assert(hit == (s1.levels()[tp] >= l as int)) by {
                    if s1.levels()[tp] >= l as int {
                        assert(q == tp) by {
                            if q < tp {
                                assert(s1.levels()[q] >= l as int);
                                assert(s1@[q] == s1.val_at(q));
                                assert(s1.cmp.cmp_spec(s1.val_at(q), v)
                                    != Ordering::Less);
                                assert(s1.cmp.cmp_spec(s1@[q], v) == Ordering::Less);
                            }
                            if q > tp {
                                assert(s1.levels()[tp] < l as int);
                            }
                        }
                        assert(s1.link_for(tp) == Some(ti));
                    } else {
                        if hit {
                            assert(s1.link_for(q) == Some(ti));
                            assert(q < s1.ord().len());
                            assert(s1.ord()[q] == ti as int);
                            assert(s1.ord().no_duplicates());
                            assert(q == tp);
                            assert(false);
                        }
                    }
                }
            }
            if hit {
                proof {
                    assert(s1.levels()[tp] >= l as int);
                    assert(s1.node_ok(tp));
                    assert(self.node_at(ti as int).links@.len() == s1.node_at(
                        ti as int,
                    ).links@.len());
                    assert(s1.node_at(ti as int).links@.len() == s1.levels()[tp] + 1);
                    assert((l as int) < self.node_at(ti as int).links@.len());
                }
                let tl = self.get_link(ti, l);
                let ghost sb = *self;
                self.set_link(pi, l, tl);
                proof {
                    assert(tl == s1.link_of(ti as int, l as int));
                    self.lemma_unlink_step(
                        sb,
                        s1,
                        v,
                        tp,
                        ti as int,
                        l as int,
                        pp,
                        pi_int,
                        true,
                        tl,
                    );
                }
            } else {
                proof {
                    self.lemma_unlink_step(
                        *self,
                        s1,
                        v,
                        tp,
                        ti as int,
                        l as int,
                        pp,
                        pi_int,
                        false,
                        None,
                    );
                }
            }
            l = l + 1;
        }
        let ghost se = *self;
        let node_opt = self.take_slot(ti);
        self.free.push(ti);
        proof {
            assert(ti as int >= 1) by {
                assert(s1.node_ok(tp));
            }
            assert(node_opt == se.nodes@[ti as int]);
            assert(se.node_at(ti as int).val == s1.node_at(ti as int).val);
            assert(s1.node_at(ti as int).val == Some(s1.val_at(tp))) by {
                assert(s1.node_ok(tp));
            }
            assert(node_opt is Some);
            assert(node_opt.unwrap().val == Some(s1.val_at(tp)));
            // the freed slot is no longer named by the order, so the
            // structural state carries over unchanged
            assert forall|k: int| 0 <= k < ordn.len() implies ordn[k] != ti as int by {
                let sk: int = if k < tp {
                    k
                } else {
                    k + 1
                };
                assert(ordn[k] == s1.ord()[sk]);
                assert(s1.ord().no_duplicates());
            }
            assert(self.levels() =~= lvn) by {
                assert forall|k: int| 0 <= k < ordn.len() implies self.levels()[k] == lvn[k] by {
                    let sk: int = if k < tp {
                        k
                    } else {
                        k + 1
                    };
                    assert(ordn[k] == s1.ord()[sk]);
                    assert(s1.node_ok(sk));
                }
            }
            assert(self@ =~= vwn) by {
                assert forall|k: int| 0 <= k < ordn.len() implies self@[k] == vwn[k] by {
                    let sk: int = if k < tp {
                        k
                    } else {
                        k + 1
                    };
                    assert(ordn[k] == s1.ord()[sk]);
                    assert(s1.node_ok(sk));
                }
            }
            assert(self.nodes@[0] == se.nodes@[0]);
            assert(self.head_level() == s1.head_level());
            assert forall|k: int| 0 <= k < ordn.len() implies self.node_ok(k) by {
                let sk: int = if k < tp {
                    k
                } else {
                    k + 1
                };
                assert(ordn[k] == s1.ord()[sk]);
                assert(s1.node_ok(sk));
                assert(ordn[k] != ti as int);
                assert(self.nodes@[ordn[k]] == se.nodes@[ordn[k]]);
                assert(se.node_ok(k));
            }
            // free list: the freed slot is new to it and now empty
            assert forall|j: int|
                0 <= j < self.free@.len() implies 1 <= #[trigger] self.free@[j]
                < self.n_slots() && self.nodes@[self.free@[j] as int] is None by {
                if j < s1.free@.len() {
                    assert(self.free@[j] == s1.free@[j]);
                    assert(s1.nodes@[s1.free@[j] as int] is None);
                    assert(s1.free@[j] != ti);
                } else {
                    assert(self.free@[j] == ti);
                }
            }
            assert(self.free@.no_duplicates()) by {
                assert forall|a: int, b: int|
                    0 <= a < self.free@.len() && 0 <= b < self.free@.len() && a
                        != b implies self.free@[a] != self.free@[b] by {
                    if a < s1.free@.len() && b < s1.free@.len() {
                        assert(s1.free@.no_duplicates());
                    } else if a < s1.free@.len() {
                        assert(s1.nodes@[s1.free@[a] as int] is None);
                    } else if b < s1.free@.len() {
                        assert(s1.nodes@[s1.free@[b] as int] is None);
                    }
                }
            }
            assert forall|m: int| 0 <= m <= hl implies self.links_ok_at(m) by {
                assert(self.nodes@[0] == se.nodes@[0]);
                assert(self.link_of(0, m) == se.link_of(0, m));
                assert forall|k: int|
                    0 <= k < ordn.len() && #[trigger] lvn[k] >= m implies self.link_of(
                    ordn[k],
                    m,
                ) == se.link_of(ordn[k], m) by {
                    let sk: int = if k < tp {
                        k
                    } else {
                        k + 1
                    };
                    assert(ordn[k] == s1.ord()[sk]);
                    assert(s1.node_ok(sk));
                    assert(ordn[k] != ti as int);
                    assert(self.nodes@[ordn[k]] == se.nodes@[ordn[k]]);
                }
                self.lemma_links_ok_transfer(se, m);
            }
            assert(self.wf());
        }
        let node = node_opt.unwrap();
        let value = node.into_val();
        match value {
            Some(x) => x,
            None => unreached(),
        }
    }

    /// Remove the element comparing `Equal` to `val`, returning it; absence
    /// is an expected outcome, answered with `None` and no change.
    pub fn remove(&mut self, val: &T) -> (r: Option<T>)
        requires
            old(self).wf(),
        ensures
            !old(self).spec_contains(*val) ==> (r is None && *final(self) == *old(self)),
            old(self).spec_contains(*val) ==> ({
                let i = first_ge(old(self).comparator(), old(self)@, *val);
                r == Some(old(self)@[i]) && final(self).wf() && final(self)@ == old(
                    self,
                )@.remove(i) && final(self).comparator() == old(self).comparator()
            }),
    {
        let nslots = self.nodes.len();
        let (preds, pps) = self.find_preds(val);
        let ghost pp0 = pps@[0];
        let ghost tp = pp0 + 1;
        proof {
            assert(self.n_slots() == nslots as int);
            assert(self.pred_ok(*val, 0, preds@[0] as int, pp0));
            if pp0 >= 0 {
                assert(self.node_ok(pp0));
            }
            if tp < self.ord().len() {
                assert(self.levels()[tp] >= 0);
            }
            lemma_faa_is(self.levels(), tp, 0, tp);
            self.lemma_pred0_first_ge(*val, preds@[0] as int, pp0);
            lemma_equiv_at_first_ge(self.cmp, self@, *val);
            assert(self.links_ok_at(0));
        }
        let p0 = preds[0];
        let nxt0 = self.get_link(p0, 0);
        match nxt0 {
            None => {
                proof {
                    assert(self.link_for(tp) is None);
                }
                None
            },
            Some(ti) => {
                proof {
                    assert(self.link_for(tp) == Some(ti));
                    assert(self.node_ok(tp));
                    assert(ti as int == self.ord()[tp]);
                    assert(self@[tp] == self.val_at(tp));
                }
                let is_eq = {
                    let tnode = self.node_ref(ti);
                    let c = self.cmp.compare(tnode.val.as_ref().unwrap(), val);
                    match c {
                        Ordering::Equal => true,
                        _ => false,
                    }
                };
                if is_eq {
                    let x = self.unlink_at(&preds, pps, ti, Ghost(tp), Ghost(*val));
                    Some(x)
                } else {
                    None
                }
            },
        }
    }

    /// Remove and return the first element, if any.
    pub fn pop_front(&mut self) -> (r: Option<T>)
        requires
            old(self).wf(),
        ensures
            old(self)@.len() == 0 ==> (r is None && *final(self) == *old(self)),
            old(self)@.len() > 0 ==> (r == Some(old(self)@[0]) && final(self)@ == old(
                self,
            )@.remove(0) && final(self).wf() && final(self).comparator() == old(
                self,
            ).comparator()),
    {
        let nslots = self.nodes.len();
        let nlinks = self.node_ref(0).links.len();
        proof {
            assert(self.n_slots() == nslots as int);
            if self.ord().len() > 0 {
                assert(self.levels()[0] >= 0);
            }
            lemma_faa_is(self.levels(), 0, 0, 0);
            assert(self.links_ok_at(0));
        }
        let first = self.get_link(0, 0);
        match first {
            None => None,
            Some(ti) => {
                proof {
                    assert(self.link_for(0) == Some(ti));
                    assert(self.node_ok(0));
                    assert(ti as int == self.ord()[0]);
                }
                let preds = zero_vec(nlinks);
                let ghost pps = Seq::new((nlinks) as nat, |x: int| -1);
                let ghost v0 = self@[0];
                proof {
                    assert(v0 == self.val_at(0));
                    assert forall|l: int|
                        0 <= l <= self.head_level() implies self.pred_ok(
                        v0,
                        l,
                        preds@[l] as int,
                        pps[l],
                    ) by {
                        assert(preds@[l] == 0);
                        assert(pps[l] == -1);
                        assert forall|j: int|
                            -1 < j < self.ord().len() && #[trigger] self.levels()[j]
                                >= l implies self.cmp.cmp_spec(self.val_at(j), v0)
                            != Ordering::Less by {
                            self.cmp.lemma_reflexive(v0);
                            if j > 0 {
                                assert(self@[j] == self.val_at(j));
                                assert(self.cmp.cmp_spec(self@[0], self@[j])
                                    == Ordering::Less);
                                self.cmp.lemma_antisymmetric(self.val_at(0), self.val_at(j));
                            }
                        }
                    }
                    self.cmp.lemma_reflexive(v0);
                    lemma_first_ge_is(self.cmp, self@, v0, 0);
                }
                let x = self.unlink_at(&preds, Ghost(pps), ti, Ghost(0int), Ghost(v0));
                Some(x)
            },
        }
    }

    /// Build a list from options; the comparator must be supplied.
    ///
    /// A custom generator must respect the generator invariant of a bound of
    /// at least 1.
    pub fn with_options(options: Options<C, G>) -> (r: Result<Self, CollectionError>)
        requires
            options.level_generator matches Some(g) ==> g.level_bound_spec() >= 1,
        ensures
            !generator_ok(options) ==> (r matches Err(e) && e is InvalidParameter),
            generator_ok(options) && options.cmp is None ==> (r matches Err(e)
                && e is InvalidParameter),
            generator_ok(options) ==> (options.cmp matches Some(c) ==> (r matches Ok(l)
                && l.wf() && l@ == Seq::<T>::empty() && l.comparator() == c)),
    {
        let mut options = options;
        let g = match options.take_level_generator() {
            Ok(g) => g,
            Err(e) => { return Err(e); },
        };
        let cmp = match options.take_comparator() {
            Ok(c) => c,
            Err(e) => { return Err(e); },
        };
        Ok(Self::make(cmp, g))
    }

    /// Remove every element, in one arena reset: the head's links are cleared
    /// level by level and all value nodes are freed together.
    pub fn clear(&mut self)
        requires
            old(self).wf(),
        ensures
            final(self).wf(),
            final(self)@ == Seq::<T>::empty(),
            final(self).comparator() == old(self).comparator(),
    {
        let nlinks = self.node_ref(0).links.len();
        let mut l: usize = 0;
        while l < nlinks
            invariant
                old(self).wf(),
                nlinks == old(self).head_level() + 1,
                l <= nlinks,
                self.nodes@.len() == old(self).nodes@.len(),
                forall|j: int|
                    1 <= j < self.nodes@.len() ==> self.nodes@[j] == old(self).nodes@[j],
                self.nodes@[0] is Some,
                self.node_at(0).val is None,
                self.node_at(0).level == old(self).node_at(0).level,
                self.node_at(0).links@.len() == old(self).node_at(0).links@.len(),
                forall|m: int| 0 <= m < l ==> self.node_at(0).links@[m] is None,
                self.free == old(self).free,
                self.cmp == old(self).cmp,
                self.level_generator == old(self).level_generator,
                self.order == old(self).order,
                self.length == old(self).length,
            decreases nlinks - l,
        {
            self.set_link(0, l, None);
            l = l + 1;
        }
        let ghost pre_nodes = self.nodes@;
        self.nodes.truncate(1);
        self.free.clear();
        self.length = 0;
        self.order = Ghost(Seq::empty());
        proof {
            assert(self.nodes@ == pre_nodes.subrange(0, 1));
            assert(self.nodes@[0] == pre_nodes[0]);
            assert(self.ord().len() == 0);
            assert(self@ =~= Seq::<T>::empty());
            assert forall|lv: int| 0 <= lv <= self.head_level() implies self.links_ok_at(
                lv,
            ) by {
                lemma_faa_is(self.levels(), 0, lv, 0);
                assert(self.link_of(0, lv) is None);
            }
        }
    }

    /// The first element in comparator order, when one exists.
    pub fn peek_front(&self) -> (r: Option<&T>)
        requires
            self.wf(),
        ensures
            self@.len() == 0 ==> r is None,
            self@.len() > 0 ==> (r matches Some(v) && *v == self@[0]),
    {
        let nslots = self.nodes.len();
        proof {
            assert(self.n_slots() == nslots as int);
            if self.ord().len() > 0 {
                assert(self.levels()[0] >= 0);
            }
            lemma_faa_is(self.levels(), 0, 0, 0);
            assert(self.links_ok_at(0));
            assert(self.link_of(0, 0) == self.link_for(0));
        }
        match self.get_link(0, 0) {
            None => None,
            Some(i) => {
                proof {
                    assert(self.link_for(0) == Some(i));
                    assert(self.ord().len() > 0);
                    assert(self.node_ok(0));
                    assert(i as int == self.ord()[0]);
                    assert(self@[0] == self.val_at(0));
                }
                let node = self.node_ref(i);
                node.val.as_ref()
            },
        }
    }

    /// However the list was built, iteration yields its elements in
    /// strictly ascending comparator order.
    pub proof fn lemma_iterate_sorted(self)
        requires
            self.wf(),
        ensures
            sorted_by(self.comparator(), self@),
    {
    }

    /// The number of stored elements.
    pub fn length(&self) -> (r: usize)
        requires
            self.wf(),
        ensures
            r as int == self@.len() as int,
    {
        self.length
    }

    /// True when no element is stored.
    pub fn is_empty(&self) -> (r: bool)
        requires
            self.wf(),
        ensures
            r == (self@.len() == 0),
    {
        self.length == 0
    }

    /// A borrowed reference to the node at a valid arena slot.
    fn node_ref(&self, i: usize) -> (r: &SkipNode<T>)
        requires
            0 <= i < self.n_slots(),
            self.nodes@[i as int] is Some,
        ensures
            *r == self.node_at(i as int),
    {
        self.nodes[i].as_ref().unwrap()
    }

    /// Read one link of a node.
    fn get_link(&self, i: usize, l: usize) -> (r: Option<usize>)
        requires
            0 <= i < self.n_slots(),
            self.nodes@[i as int] is Some,
            l < self.node_at(i as int).links@.len(),
        ensures
            r == self.link_of(i as int, l as int),
    {
        let node = self.nodes[i].as_ref().unwrap();
        node.links[l]
    }

    /// Redirect one link of a node, leaving everything else unchanged.
    fn set_link(&mut self, i: usize, l: usize, t: Option<usize>)
        requires
            0 <= i < old(self).n_slots(),
            old(self).nodes@[i as int] is Some,
            l < old(self).node_at(i as int).links@.len(),
        ensures
            final(self).nodes@.len() == old(self).nodes@.len(),
            forall|j: int|
                0 <= j < old(self).n_slots() && j != i ==> final(self).nodes@[j] == old(
                    self,
                ).nodes@[j],
            final(self).nodes@[i as int] is Some,
            final(self).node_at(i as int).val == old(self).node_at(i as int).val,
            final(self).node_at(i as int).level == old(self).node_at(i as int).level,
            final(self).node_at(i as int).links@ == old(self).node_at(
                i as int,
            ).links@.update(l as int, t),
            final(self).free == old(self).free,
            final(self).cmp == old(self).cmp,
            final(self).level_generator == old(self).level_generator,
            final(self).order == old(self).order,
            final(self).length == old(self).length,
    {
        let node = &mut self.nodes[i];
        match node {
            Some(n) => {
                let slot = &mut n.links[l];
                *slot = t;
            },
            None => {
                unreached()
            },
        }
    }
}

impl<T, C: Comparator<T>, G: GenerateLevel> OrdSkipList<T, C, G> {
    /// A mutable reference to the value stored at a valid arena slot.
    fn val_mut(&mut self, i: usize) -> (r: &mut T)
        requires
            0 <= i < old(self).n_slots(),
            old(self).nodes@[i as int] is Some,
            old(self).node_at(i as int).val is Some,
        ensures
            *r == old(self).node_at(i as int).val.unwrap(),
            final(self).nodes@.len() == old(self).nodes@.len(),
            forall|j: int|
                0 <= j < old(self).n_slots() && j != i ==> final(self).nodes@[j] == old(
                    self,
                ).nodes@[j],
            final(self).nodes@[i as int] is Some,
            final(self).node_at(i as int).val == Some(*final(r)),
            final(self).node_at(i as int).level == old(self).node_at(i as int).level,
            final(self).node_at(i as int).links == old(self).node_at(i as int).links,
            final(self).free == old(self).free,
            final(self).cmp == old(self).cmp,
            final(self).level_generator == old(self).level_generator,
            final(self).order == old(self).order,
            final(self).length == old(self).length,
    {
        let node = &mut self.nodes[i];
        match node {
            Some(n) => {
                match &mut n.val {
                    Some(v) => v,
                    None => unreached(),
                }
            },
            None => unreached(),
        }
    }

    /// A fresh read-only iterator positioned at the front.
    pub fn iter(&self) -> (it: Iter<T, C, G>)
        requires
            self.wf(),
        ensures
            it.wf_iter(),
            it.target() == *self,
            it.pos() == 0,
    {
        proof {
            if self.ord().len() > 0 {
                assert(self.levels()[0] >= 0);
            }
            lemma_faa_is(self.levels(), 0, 0, 0);
            assert(self.links_ok_at(0));
        }
        let cur = self.get_link(0, 0);
        Iter { list: self, cur, pos: Ghost(0int) }
    }

    /// A fresh mutable cursor positioned at the front; each step is taken by
    /// handing it the list again. The structural invariant suffices, so a
    /// cursor can keep stepping while earlier writes have disturbed the
    /// value order.
    pub fn iter_mut(&mut self) -> (it: IterMut)
        requires
            old(self).wf_shape(),
        ensures
            *final(self) == *old(self),
            it.valid_for(*old(self)),
            it.pos() == 0,
    {
        proof {
            if self.ord().len() > 0 {
                assert(self.levels()[0] >= 0);
            }
            lemma_faa_is(self.levels(), 0, 0, 0);
            assert(self.links_ok_at(0));
        }
        let cur = self.get_link(0, 0);
        IterMut { cur, pos: Ghost(0int) }
    }

    /// Surrender the list to a draining iterator.
    pub fn into_iter(self) -> (it: IntoIter<T, C, G>)
        requires
            self.wf(),
        ensures
            it.wf_iter(),
            it.remaining() == self@,
    {
        IntoIter { list: self }
    }
}

/// A lazy, restartable forward traversal over the elements in ascending
/// order. It borrows the list, so the list cannot change while one is alive.
pub struct Iter<'a, T, C, G> {
    list: &'a OrdSkipList<T, C, G>,
    cur: Option<usize>,
    pos: Ghost<int>,
}

impl<'a, T, C: Comparator<T>, G: GenerateLevel> Iter<'a, T, C, G> {
    /// The list this iterator walks.
    pub closed spec fn target(self) -> OrdSkipList<T, C, G> {
        *self.list
    }

    /// How many elements have been yielded.
    pub closed spec fn pos(self) -> int {
        self.pos@
    }

    /// The iterator is anchored to a well-formed list and sits on a valid
    /// position.
    pub closed spec fn wf_iter(self) -> bool {
        &&& self.list.wf()
        &&& 0 <= self.pos@ <= self.list@.len()
        &&& self.cur == self.list.link_for(self.pos@)
    }

    /// Yield the next element, in ascending order.
    #[verifier::rlimit(100)]
    #[verifier::spinoff_prover]
    pub fn next(&mut self) -> (r: Option<&'a T>)
        requires
            old(self).wf_iter(),
        ensures
            final(self).wf_iter(),
            final(self).target() == old(self).target(),
            old(self).pos() < old(self).target()@.len() ==> (r matches Some(v)
                && *v == old(self).target()@[old(self).pos()]
                && final(self).pos() == old(self).pos() + 1),
            old(self).pos() >= old(self).target()@.len() ==> (r is None && final(self).pos()
                == old(self).pos()),
    {
        let nslots = self.list.nodes.len();
        match self.cur {
            None => {
                proof {
                    if self.pos@ < self.list@.len() {
                        assert(self.list.link_for(self.pos@) is Some);
                    }
                }
                None
            },
            Some(i) => {
                proof {
                    assert(self.list.n_slots() == nslots as int);
                    assert(self.list.node_ok(self.pos@));
                    assert(i as int == self.list.ord()[self.pos@]);
                    assert(self.list.links_ok_at(0));
                    if self.pos@ + 1 < self.list.ord().len() {
                        assert(self.list.levels()[self.pos@ + 1] >= 0);
                    }
                    lemma_faa_is(self.list.levels(), self.pos@ + 1, 0, self.pos@ + 1);
                    assert(self.list@[self.pos@] == self.list.val_at(self.pos@));
                }
                let node = self.list.node_ref(i);
                self.cur = self.list.get_link(i, 0);
                proof {
                    self.pos = Ghost(self.pos@ + 1);
                }
                node.val.as_ref()
            },
        }
    }
}

/// A forward cursor for in-place mutation: it holds no borrow, and each call
/// to `next` hands the list back in, yielding a mutable reference to the
/// element at the cursor.
pub struct IterMut {
    cur: Option<usize>,
    pos: Ghost<int>,
}

impl IterMut {
    /// How many elements have been yielded.
    pub closed spec fn pos(self) -> int {
        self.pos@
    }

    /// The cursor matches the list's structure at its position.
    pub closed spec fn valid_for<T, C: Comparator<T>, G: GenerateLevel>(
        self,
        list: OrdSkipList<T, C, G>,
    ) -> bool {
        &&& 0 <= self.pos@ <= list@.len()
        &&& self.cur == list.link_for(self.pos@)
    }

    /// Yield a mutable reference to the next element. Updating it updates the
    /// list's element at this cursor's position; the structure is preserved,
    /// and the full invariant holds again whenever the new values are still
    /// sorted. Only the structural invariant is demanded, so stepping goes on
    /// while earlier writes have left the values transiently unsorted.
    #[verifier::rlimit(100)]
    #[verifier::spinoff_prover]
    pub fn next<'a, T, C: Comparator<T>, G: GenerateLevel>(
        &mut self,
        list: &'a mut OrdSkipList<T, C, G>,
    ) -> (r: Option<&'a mut T>)
        requires
            old(list).wf_shape(),
            old(self).valid_for(*old(list)),
        ensures
            old(self).pos() >= old(list)@.len() ==> (r is None && *final(list) == *old(list)
                && *final(self) == *old(self)),
            old(self).pos() < old(list)@.len() ==> (r matches Some(v)
                && *v == old(list)@[old(self).pos()] && final(list)@ == old(list)@.update(
                old(self).pos(),
                *final(v),
            ) && final(list).wf_shape() && final(list).comparator() == old(list).comparator()
                && final(self).pos() == old(self).pos() + 1 && final(self).valid_for(
                *final(list),
            ) && (sorted_by(final(list).comparator(), final(list)@) ==> final(list).wf())),
    {
        let nslots = list.nodes.len();
        match self.cur {
            None => {
                proof {
                    assert(self.cur == list.link_for(self.pos@));
                    if self.pos@ < list@.len() {
                        assert(list.link_for(self.pos@) is Some);
                        assert(false);
                    }
                }
                None
            },
            Some(i) => {
                let ghost p = self.pos@;
                let ghost s1 = *list;
                proof {
                    assert(list.n_slots() == nslots as int);
                    assert(list.node_ok(p));
                    assert(i as int == list.ord()[p]);
                    assert(list.links_ok_at(0));
                    if p + 1 < list.ord().len() {
                        assert(list.levels()[p + 1] >= 0);
                    }
                    lemma_faa_is(list.levels(), p + 1, 0, p + 1);
                    assert(list.levels()[p] >= 0);
                    assert(list.link_of(i as int, 0) == list.link_for(p + 1));
                    assert(list@[p] == list.val_at(p));
                }
                self.cur = list.get_link(i, 0);
                proof {
                    self.pos = Ghost(p + 1);
                    assert(self.cur == s1.link_for(p + 1));
                }
                let r = list.val_mut(i);
                proof {
                    let fl = *after_borrow(list);
                    let w = fl.node_at(i as int).val.unwrap();
                    OrdSkipList::<T, C, G>::lemma_value_update(fl, s1, i as int, p, w);
                    assert(fl.link_for(p + 1) == s1.link_for(p + 1));
                    assert(self.cur == fl.link_for(self.pos@));
                }
                Some(r)
            },
        }
    }
}

/// A draining iterator: yields the elements in ascending order, consuming
/// the list.
pub struct IntoIter<T, C, G> {
    list: OrdSkipList<T, C, G>,
}

impl<T, C: Comparator<T>, G: GenerateLevel> IntoIter<T, C, G> {
    /// The elements not yet yielded, in ascending order.
    pub closed spec fn remaining(self) -> Seq<T> {
        self.list@
    }

    pub closed spec fn wf_iter(self) -> bool {
        self.list.wf()
    }

    /// Yield and remove the smallest remaining element.
    pub fn next(&mut self) -> (r: Option<T>)
        requires
            old(self).wf_iter(),
        ensures
            final(self).wf_iter(),
            old(self).remaining().len() == 0
                ==> (r is None && final(self).remaining() == old(self).remaining()),
            old(self).remaining().len() > 0 ==> (r == Some(old(self).remaining()[0])
                && final(self).remaining() == old(self).remaining().remove(0)),
    {
        self.list.pop_front()
    }
}

impl<T, C: Comparator<T> + Default, G: GenerateLevel> OrdSkipList<T, C, G> {
    /// Build a list from options, filling in the default comparator when none
    /// is supplied.
    pub fn ord_with_options(options: Options<C, G>) -> (r: Result<Self, CollectionError>)
        requires
            options.level_generator matches Some(g) ==> g.level_bound_spec() >= 1,
        ensures
            !generator_ok(options) ==> (r matches Err(e) && e is InvalidParameter),
            generator_ok(options) ==> (r matches Ok(l) && l.wf() && l@ == Seq::<T>::empty()),
            generator_ok(options) ==> (options.cmp matches Some(c) ==> (r matches Ok(l)
                && l.comparator() == c)),
    {
        let mut options = options;
        if options.cmp.is_none() {
            options.cmp = Some(C::default());
        }
        Self::with_options(options)
    }
}

impl<T, C: Comparator<T> + Default> OrdSkipList<T, C, DefaultLevelGenerator> {
    /// An empty list ordered by the default comparator, with the default
    /// level generator.
    pub fn new() -> (r: Self)
        ensures
            r.wf(),
            r@ == Seq::<T>::empty(),
    {
        let g = DefaultLevelGenerator::default();
        Self::make(C::default(), g)
    }
}

impl<T, C: Comparator<T> + Default> Default for OrdSkipList<T, C, DefaultLevelGenerator> {
    /// Same as `new`.
    fn default() -> (r: Self)
        ensures
            r.wf(),
            r@ == Seq::<T>::empty(),
    {
        Self::new()
    }
}

} // verus!
