use vstd::prelude::*;

verus! {

/// One tower of a skip list, stored in an arena and addressed by index.
///
/// A node of `level` n carries `n + 1` forward links, one per level it
/// participates in; `links[i]` holds the arena index of the next node at or
/// above level `i`, or `None` at the end of that level's chain. The value is
/// absent only for the head sentinel.
pub struct SkipNode<T> {
    /// The stored element; `None` only for the head sentinel.
    pub val: Option<T>,
    /// The highest level this node participates in.
    pub level: usize,
    /// Forward links, one per level in `0..=level`.
    pub links: Vec<Option<usize>>,
}

/// A vector of `n` empty links.
fn none_links(n: usize) -> (r: Vec<Option<usize>>)
    ensures
        r@.len() == n,
        forall|i: int| 0 <= i < n ==> r@[i] is None,
{
    let mut r: Vec<Option<usize>> = Vec::new();
    let mut k: usize = 0;
    while k < n
        invariant
            k <= n,
            r@.len() == k,
            forall|i: int| 0 <= i < k ==> r@[i] is None,
        decreases n - k,
    {
        r.push(None);
        k = k + 1;
    }
    r
}

impl<T> SkipNode<T> {
    /// Create the head sentinel: no value, one link slot per level of the
    /// whole structure.
    pub fn head(level_bound: usize) -> (r: Self)
        requires
            level_bound >= 1,
        ensures
            r.val is None,
            r.level == level_bound - 1,
            r.links@.len() == level_bound,
            forall|i: int| 0 <= i < level_bound ==> r.links@[i] is None,
    {
        SkipNode { val: None, level: level_bound - 1, links: none_links(level_bound) }
    }

    /// Create a value node of the given level, with all links empty.
    pub fn new(item: T, level: usize) -> (r: Self)
        requires
            level < usize::MAX,
        ensures
            r.val == Some(item),
            r.level == level,
            r.links@.len() == level + 1,
            forall|i: int| 0 <= i <= level ==> r.links@[i] is None,
    {
        SkipNode { val: Some(item), level, links: none_links(level + 1) }
    }

    /// Surrender the stored value.
    pub fn into_val(self) -> (r: Option<T>)
        ensures
            r == self.val,
    {
        self.val
    }
}

} // verus!
