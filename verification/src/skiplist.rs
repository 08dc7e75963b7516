//! A second face over the same skip-list engine, with an `add`-flavored
//! insertion API. It shares `OrdSkipList`'s inclusive splicing convention (a
//! node is linked at every level from 0 up to and including its drawn level)
//! and delegates every operation to it.

use vstd::prelude::*;
use vstd::string::StringExecFns;
use crate::compare::{Comparator, has_equiv, first_ge};
use crate::error::CollectionError;
use crate::level_generator::{DefaultLevelGenerator, GenerateLevel};
use crate::ordskiplist::OrdSkipList;

verus! {

/// The options to create a skip list: a comparison strategy, and either a
/// level bound for the default generator or a custom generator.
pub struct Options<C, G> {
    /// Custom comparator; required by `with_options`.
    pub cmp: Option<C>,
    /// Bound handed to the default level generator when no generator is
    /// supplied.
    pub level_bound: Option<usize>,
    /// Custom level generator.
    pub level_generator: Option<G>,
}

/// The generator configuration of `o` can be realized.
pub open spec fn generator_ok<C, G>(o: Options<C, G>) -> bool {
    o.level_generator is Some || (o.level_bound matches Some(b) ==> b >= 1)
}

impl<C, G: GenerateLevel> Options<C, G> {
    /// Surrender the configured level generator, falling back to one built
    /// from the bound (or the default) when none was supplied.
    pub fn take_level_generator(&mut self) -> (r: Result<G, CollectionError>)
        ensures
            final(self).cmp == old(self).cmp,
            final(self).level_bound == old(self).level_bound,
            final(self).level_generator is None,
            old(self).level_generator matches Some(g) ==> r == Ok::<G, CollectionError>(g),
            old(self).level_generator is None ==> match old(self).level_bound {
                Some(b) => if b >= 1 {
                    r matches Ok(g) && g.level_bound_spec() == b as int
                } else {
                    r matches Err(e) && e is InvalidParameter
                },
                None => r matches Ok(g) && g.level_bound_spec() >= 1,
            },
    {
        match self.level_generator.take() {
            Some(g) => Ok(g),
            None => G::from_bound(self.level_bound),
        }
    }

    /// Surrender the configured comparator; fails when none was supplied.
    pub fn take_comparator(&mut self) -> (r: Result<C, CollectionError>)
        ensures
            final(self).level_bound == old(self).level_bound,
            final(self).level_generator == old(self).level_generator,
            final(self).cmp is None,
            old(self).cmp matches Some(c) ==> r == Ok::<C, CollectionError>(c),
            old(self).cmp is None ==> (r matches Err(e) && e is InvalidParameter),
    {
        match self.cmp.take() {
            Some(c) => Ok(c),
            None => Err(
                CollectionError::InvalidParameter(
                    String::from_str("comparator must be provided"),
                ),
            ),
        }
    }
}

/// An ordered skip list, a set of elements kept strictly ascending under the
/// comparison strategy `C`, with tower levels drawn by `G`.
///
/// Not internally synchronized: single-owner use only.
pub struct SkipList<T, C, G> {
    inner: OrdSkipList<T, C, G>,
}

impl<T, C, G> View for SkipList<T, C, G> {
    type V = Seq<T>;

    closed spec fn view(&self) -> Seq<T> {
        self.inner@
    }
}

impl<T, C: Comparator<T>, G: GenerateLevel> SkipList<T, C, G> {
    /// The comparison strategy this list orders by.
    pub closed spec fn comparator(self) -> C {
        self.inner.comparator()
    }

    /// The invariant: the engine's well-formedness.
    pub closed spec fn wf(self) -> bool {
        self.inner.wf()
    }

    /// The structural part of the invariant alone: arena and link chains are
    /// consistent, with nothing said of the value order.
    pub closed spec fn wf_shape(self) -> bool {
        self.inner.wf_shape()
    }

    /// The invariant splits into structure and sortedness; in particular a
    /// well-formed list's view is strictly ascending under its comparator.
    pub proof fn lemma_wf_parts(self)
        ensures
            self.wf() ==> crate::compare::sorted_by(self.comparator(), self@),
            self.wf() == (self.wf_shape() && crate::compare::sorted_by(
                self.comparator(),
                self@,
            )),
    {
        self.inner.lemma_wf_parts();
    }

    /// However the list was built, iteration yields its elements in strictly
    /// ascending comparator order.
    pub proof fn lemma_iterate_sorted(self)
        requires
            self.wf(),
        ensures
            crate::compare::sorted_by(self.comparator(), self@),
    {
        self.inner.lemma_iterate_sorted();
    }

    /// Some stored element compares `Equal` to `v`.
    pub open spec fn spec_contains(self, v: T) -> bool {
        has_equiv(self.comparator(), self@, v)
    }

    /// Build a list from options; the comparator must be supplied.
    pub fn with_options(options: Options<C, G>) -> (r: Result<Self, CollectionError>)
        requires
            options.level_generator matches Some(g) ==> g.level_bound_spec() >= 1,
        ensures
            !generator_ok(options) ==> (r matches Err(e) && e is InvalidParameter),
            generator_ok(options) && options.cmp is None ==> (r matches Err(e)
                && e is InvalidParameter),
            generator_ok(options) ==> (options.cmp matches Some(c) ==> (r matches Ok(l)
                && l.wf() && l@ == Seq::<T>::empty() && l.comparator() == c)),
    {
        let inner_options = crate::ordskiplist::Options {
            cmp: options.cmp,
            level_bound: options.level_bound,
            level_generator: options.level_generator,
        };
        match OrdSkipList::with_options(inner_options) {
            Ok(l) => Ok(SkipList { inner: l }),
            Err(e) => Err(e),
        }
    }

    /// True exactly when some stored element compares `Equal` to `v`.
    pub fn contains(&self, v: &T) -> (r: bool)
        requires
            self.wf(),
        ensures
            r == self.spec_contains(*v),
    {
        self.inner.contains(v)
    }

    /// Insert `data` at its sorted position; fails with `DuplicateKey` (and
    /// changes nothing) when an equal element is present.
    pub fn add(&mut self, data: T) -> (r: Result<(), CollectionError>)
        requires
            old(self).wf(),
        ensures
            old(self).spec_contains(data) ==> ((r matches Err(e) && e is DuplicateKey)
                && *final(self) == *old(self)),
            !old(self).spec_contains(data) ==> (r is Ok && final(self).wf() && final(self)@
                == old(self)@.insert(
                first_ge(old(self).comparator(), old(self)@, data),
                data,
            ) && final(self).comparator() == old(self).comparator()),
    {
        self.inner.insert(data)
    }

    /// Remove the element comparing `Equal` to `val`, returning it; absence
    /// is answered with `None` and no change.
    pub fn remove(&mut self, val: &T) -> (r: Option<T>)
        requires
            old(self).wf(),
        ensures
            !old(self).spec_contains(*val) ==> (r is None && *final(self) == *old(self)),
            old(self).spec_contains(*val) ==> ({
                let i = first_ge(old(self).comparator(), old(self)@, *val);
                r == Some(old(self)@[i]) && final(self).wf() && final(self)@ == old(
                    self,
                )@.remove(i) && final(self).comparator() == old(self).comparator()
            }),
    {
        self.inner.remove(val)
    }

    /// Remove every element in one pass.
    pub fn clear(&mut self)
        requires
            old(self).wf(),
        ensures
            final(self).wf(),
            final(self)@ == Seq::<T>::empty(),
            final(self).comparator() == old(self).comparator(),
    {
        self.inner.clear()
    }

    /// True when no element is stored.
    pub fn is_empty(&self) -> (r: bool)
        requires
            self.wf(),
        ensures
            r == (self@.len() == 0),
    {
        self.inner.is_empty()
    }

    /// The number of stored elements.
    pub fn length(&self) -> (r: usize)
        requires
            self.wf(),
        ensures
            r as int == self@.len() as int,
    {
        self.inner.length()
    }

    /// A fresh read-only iterator positioned at the front.
    pub fn iter(&self) -> (it: Iter<T, C, G>)
        requires
            self.wf(),
        ensures
            it.wf_iter(),
            it.elems() == self@,
            it.pos() == 0,
    {
        Iter { inner: self.inner.iter() }
    }

    /// A fresh mutable cursor positioned at the front. The structural
    /// invariant suffices.
    pub fn iter_mut(&mut self) -> (it: IterMut)
        requires
            old(self).wf_shape(),
        ensures
            *final(self) == *old(self),
            it.valid_for(*old(self)),
            it.pos() == 0,
    {
        IterMut { inner: self.inner.iter_mut() }
    }

    /// Surrender the list to a draining iterator.
    pub fn into_iter(self) -> (it: IntoIter<T, C, G>)
        requires
            self.wf(),
        ensures
            it.wf_iter(),
            it.remaining() == self@,
    {
        IntoIter { inner: self.inner.into_iter() }
    }
}

impl<T, C: Comparator<T> + Default, G: GenerateLevel> SkipList<T, C, G> {
    /// Build a list from options, filling in the default comparator when none
    /// is supplied.
    pub fn ord_with_options(options: Options<C, G>) -> (r: Result<Self, CollectionError>)
        requires
            options.level_generator matches Some(g) ==> g.level_bound_spec() >= 1,
        ensures
            !generator_ok(options) ==> (r matches Err(e) && e is InvalidParameter),
            generator_ok(options) ==> (r matches Ok(l) && l.wf() && l@ == Seq::<T>::empty()),
            generator_ok(options) ==> (options.cmp matches Some(c) ==> (r matches Ok(l)
                && l.comparator() == c)),
    {
        let mut options = options;
        if options.cmp.is_none() {
            options.cmp = Some(C::default());
        }
        Self::with_options(options)
    }
}

impl<T, C: Comparator<T> + Default> SkipList<T, C, DefaultLevelGenerator> {
    /// An empty list ordered by the default comparator, with the default
    /// level generator.
    pub fn new() -> (r: Self)
        ensures
            r.wf(),
            r@ == Seq::<T>::empty(),
    {
        SkipList { inner: OrdSkipList::new() }
    }
}

/// A lazy, restartable forward traversal in ascending order, borrowing the
/// list.
pub struct Iter<'a, T, C, G> {
    inner: crate::ordskiplist::Iter<'a, T, C, G>,
}

impl<'a, T, C: Comparator<T>, G: GenerateLevel> Iter<'a, T, C, G> {
    /// The elements of the list this iterator walks.
    pub closed spec fn elems(self) -> Seq<T> {
        self.inner.target()@
    }

    /// How many elements have been yielded.
    pub closed spec fn pos(self) -> int {
        self.inner.pos()
    }

    pub closed spec fn wf_iter(self) -> bool {
        self.inner.wf_iter()
    }

    /// Yield the next element, in ascending order.
    pub fn next(&mut self) -> (r: Option<&'a T>)
        requires
            old(self).wf_iter(),
        ensures
            final(self).wf_iter(),
            final(self).elems() == old(self).elems(),
            old(self).pos() < old(self).elems().len() ==> (r matches Some(v) && *v == old(
                self,
            ).elems()[old(self).pos()] && final(self).pos() == old(self).pos() + 1),
            old(self).pos() >= old(self).elems().len() ==> (r is None && final(self).pos()
                == old(self).pos()),
    {
        self.inner.next()
    }
}

/// A forward cursor for in-place mutation; each step takes the list again.
pub struct IterMut {
    inner: crate::ordskiplist::IterMut,
}

impl IterMut {
    /// How many elements have been yielded.
    pub closed spec fn pos(self) -> int {
        self.inner.pos()
    }

    /// The cursor matches the list's structure at its position.
    pub closed spec fn valid_for<T, C: Comparator<T>, G: GenerateLevel>(
        self,
        list: SkipList<T, C, G>,
    ) -> bool {
        self.inner.valid_for(list.inner)
    }

    /// Yield a mutable reference to the next element. Only the structural
    /// invariant is demanded, so stepping goes on while earlier writes have
    /// left the values transiently unsorted.
    pub fn next<'a, T, C: Comparator<T>, G: GenerateLevel>(
        &mut self,
        list: &'a mut SkipList<T, C, G>,
    ) -> (r: Option<&'a mut T>)
        requires
            old(list).wf_shape(),
            old(self).valid_for(*old(list)),
        ensures
            old(self).pos() >= old(list)@.len() ==> (r is None && *final(list) == *old(list)
                && *final(self) == *old(self)),
            old(self).pos() < old(list)@.len() ==> (r matches Some(v)
                && *v == old(list)@[old(self).pos()] && final(list)@ == old(list)@.update(
                old(self).pos(),
                *final(v),
            ) && final(list).wf_shape() && final(list).comparator() == old(list).comparator()
                && final(self).pos() == old(self).pos() + 1
                && final(self).valid_for(*final(list)) && (crate::compare::sorted_by(
                final(list).comparator(),
                final(list)@,
            ) ==> final(list).wf())),
    {
        self.inner.next(&mut list.inner)
    }
}

/// A draining iterator: yields the elements in ascending order, consuming
/// the list.
pub struct IntoIter<T, C, G> {
    inner: crate::ordskiplist::IntoIter<T, C, G>,
}

impl<T, C: Comparator<T>, G: GenerateLevel> IntoIter<T, C, G> {
    /// The elements not yet yielded, in ascending order.
    pub closed spec fn remaining(self) -> Seq<T> {
        self.inner.remaining()
    }

    pub closed spec fn wf_iter(self) -> bool {
        self.inner.wf_iter()
    }

    /// Yield and remove the smallest remaining element.
    pub fn next(&mut self) -> (r: Option<T>)
        requires
            old(self).wf_iter(),
        ensures
            final(self).wf_iter(),
            old(self).remaining().len() == 0
                ==> (r is None && final(self).remaining() == old(self).remaining()),
            old(self).remaining().len() > 0 ==> (r == Some(old(self).remaining()[0])
                && final(self).remaining() == old(self).remaining().remove(0)),
    {
        self.inner.next()
    }
}

} // verus!
