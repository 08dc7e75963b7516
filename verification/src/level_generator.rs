use vstd::prelude::*;
use vstd::string::StringExecFns;
use crate::error::CollectionError;
use rand::rngs::SmallRng;
use rand::Rng;
use rand::SeedableRng;

verus! {

/// Upon the insertion of a new element, the element's tower is replicated to
/// higher levels with a probability decided by a level generator.
///
/// `random` must never return 0, and must stay strictly below the bound
/// whenever the bound exceeds 1.
pub trait GenerateLevel: Sized {
    /// The exclusive upper bound on the levels this generator produces.
    spec fn level_bound_spec(&self) -> int;

    /// The bound, as configured.
    fn level_bound(&self) -> (r: usize)
        ensures
            r as int == self.level_bound_spec(),
    ;

    /// Draw a level for a new element.
    fn random(&mut self) -> (r: usize)
        ensures
            final(self).level_bound_spec() == old(self).level_bound_spec(),
            1 <= r,
            old(self).level_bound_spec() > 1 ==> (r as int) < old(self).level_bound_spec(),
            old(self).level_bound_spec() <= 1 ==> r == 1,
    ;

    /// Build the generator a container falls back to when none is supplied:
    /// either for an explicit bound, or for the implementation's default.
    fn from_bound(level_bound: Option<usize>) -> (r: Result<Self, CollectionError>)
        ensures
            level_bound matches Some(b) ==> (if b >= 1 {
                r matches Ok(g) && g.level_bound_spec() == b as int
            } else {
                r matches Err(e) && e is InvalidParameter
            }),
            level_bound is None ==> (r matches Ok(g) && g.level_bound_spec() >= 1),
    ;
}

/// Relies on `rand::rngs::SmallRng`, an opaque random-number-generator state.
#[verifier::external_type_specification]
#[verifier::external_body]
pub struct ExSmallRng(SmallRng);

/// Relies on `rand::rngs::SmallRng::from_rng` seeded from
/// `rand::thread_rng()`: builds a fresh generator state. The thread-local
/// source is documented as infallible, so the unwrap cannot panic.
#[verifier::external_body]
fn fresh_small_rng() -> SmallRng {
    SmallRng::from_rng(rand::thread_rng()).unwrap()
}

/// Relies on `rand::Rng::gen_range` over `0..n`: returns a value drawn from
/// that range, so the result is strictly below `n`. The non-empty range rules
/// out the documented panic.
#[verifier::external_body]
fn rng_below(rng: &mut SmallRng, n: u32) -> (r: u32)
    requires
        n >= 1,
    ensures
        r < n,
{
    rng.gen_range(0..n)
}

/// A level generator producing geometrically distributed levels: each next
/// level is reached with probability `p`, truncated at the bound.
///
/// The continuation probability is held in thousandths, so `500` stands for
/// one half; values of 0 or of 1000 and beyond degenerate the distribution
/// and are rejected at construction.
pub struct DefaultLevelGenerator {
    level_bound: usize,
    p_thousandths: u32,
    rng: SmallRng,
}

impl DefaultLevelGenerator {
    /// Create a generator with `level_bound` levels and continuation
    /// probability `p_thousandths / 1000`.
    ///
    /// Fails with `InvalidParameter` when the bound is zero or the
    /// probability is within one thousandth of 0 or of 1.
    pub fn new(level_bound: usize, p_thousandths: u32) -> (r: Result<
        DefaultLevelGenerator,
        CollectionError,
    >)
        ensures
            level_bound == 0 ==> (r matches Err(e) && e is InvalidParameter),
            !(1 <= p_thousandths <= 999) ==> (r matches Err(e) && e is InvalidParameter),
            level_bound >= 1 && 1 <= p_thousandths <= 999 ==> (r matches Ok(g) && g.wf()
                && g.level_bound_spec() == level_bound as int),
    {
        if level_bound == 0 {
            return Err(
                CollectionError::InvalidParameter(
                    String::from_str("total must be non-zero."),
                ),
            );
        }
        if p_thousandths == 0 || p_thousandths >= 1000 {
            return Err(
                CollectionError::InvalidParameter(String::from_str("p must be in (0,1).")),
            );
        }
        Ok(DefaultLevelGenerator { level_bound, p_thousandths, rng: fresh_small_rng() })
    }

    /// The construction invariant: bound at least 1, probability strictly
    /// inside (0, 1).
    pub closed spec fn wf(&self) -> bool {
        &&& self.level_bound >= 1
        &&& 1 <= self.p_thousandths <= 999
    }
}

impl Default for DefaultLevelGenerator {
    /// The default configuration: 16 levels, continuation probability one
    /// half.
    fn default() -> (r: Self)
        ensures
            r.wf(),
            r.level_bound_spec() == 16,
    {
        DefaultLevelGenerator { level_bound: 16, p_thousandths: 500, rng: fresh_small_rng() }
    }
}

impl GenerateLevel for DefaultLevelGenerator {
    closed spec fn level_bound_spec(&self) -> int {
        self.level_bound as int
    }

    fn level_bound(&self) -> (r: usize) {
        self.level_bound
    }

    /// Start at level 1; while a fresh uniform draw falls below the running
    /// threshold (initially `p`, multiplied by `p` at each step) and the next
    /// level is still below the bound, climb one level.
    fn random(&mut self) -> (r: usize) {
        let mut level: usize = 1;
        let p: u32 = if self.p_thousandths <= 999 {
            self.p_thousandths
        } else {
            999
        };
        let mut x: u32 = p;
        let bound = self.level_bound;
        while level + 1 < bound
            invariant
                1 <= level,
                bound == self.level_bound,
                self.level_bound == old(self).level_bound,
                self.p_thousandths == old(self).p_thousandths,
                p <= 999,
                x <= 999,
                bound > 1 ==> level < bound,
                bound <= 1 ==> level == 1,
            decreases bound - level,
        {
            let d = rng_below(&mut self.rng, 1000);
            if d < x {
                level = level + 1;
                proof {
                    assert((x as int) * (p as int) <= 999 * 999) by (nonlinear_arith)
                        requires
                            x <= 999,
                            p <= 999,
                    ;
                }
                x = x * p / 1000;
            } else {
                break ;
            }
        }
        level
    }

    fn from_bound(level_bound: Option<usize>) -> (r: Result<Self, CollectionError>)
        ensures
            level_bound is None ==> (r matches Ok(g) && g.level_bound_spec() == 16),
    {
        match level_bound {
            Some(b) => DefaultLevelGenerator::new(b, 500),
            None => Ok(DefaultLevelGenerator::default()),
        }
    }
}

} // verus!
