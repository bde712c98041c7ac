//! Conservation tallies over runs of cells: the total water fill and the
//! count of sand grains, with the update lemmas the flow proofs use.

use vstd::prelude::*;

use crate::grid::{Particle, ParticleType};

verus! {

/// The water mass one cell contributes to the conservation tally.
pub open spec fn fill_of(p: Particle) -> int {
    if p.p_type == ParticleType::Water {
        p.fill_ratio as int
    } else {
        0
    }
}

pub open spec fn is_sand(p: Particle) -> bool {
    p.p_type == ParticleType::Sand
}

pub open spec fn sand_unit(p: Particle) -> int {
    if is_sand(p) {
        1
    } else {
        0
    }
}

/// Total water fill over a run of cells.
pub open spec fn total_fill(s: Seq<Particle>) -> int
    decreases s.len(),
{
    if s.len() == 0 {
        0
    } else {
        total_fill(s.drop_last()) + fill_of(s.last())
    }
}

/// Number of sand grains in a run of cells.
pub open spec fn sand_count(s: Seq<Particle>) -> int
    decreases s.len(),
{
    if s.len() == 0 {
        0
    } else {
        sand_count(s.drop_last()) + sand_unit(s.last())
    }
}

/// Number of sand grains strictly before index n. In a row-major grid of
/// width w, the cells before row k are exactly those before index k * w.
pub open spec fn sand_above(s: Seq<Particle>, n: int) -> int {
    sand_count(s.take(n))
}

/// Replacing one cell shifts the total fill by the difference of the two
/// cells' contributions.
pub proof fn lemma_total_fill_update(s: Seq<Particle>, i: int, p: Particle)
    requires
        0 <= i < s.len(),
    ensures
        total_fill(s.update(i, p)) == total_fill(s) - fill_of(s[i]) + fill_of(p),
    decreases s.len(),
{
    let t = s.update(i, p);
    if i == s.len() - 1 {
        assert(t.drop_last() =~= s.drop_last());
    } else {
        lemma_total_fill_update(s.drop_last(), i, p);
        assert(t.drop_last() =~= s.drop_last().update(i, p));
    }
}

/// Replacing one cell shifts the sand count by the difference of the two
/// cells' contributions.
pub proof fn lemma_sand_count_update(s: Seq<Particle>, i: int, p: Particle)
    requires
        0 <= i < s.len(),
    ensures
        sand_count(s.update(i, p)) == sand_count(s) - sand_unit(s[i]) + sand_unit(p),
    decreases s.len(),
{
    let t = s.update(i, p);
    if i == s.len() - 1 {
        assert(t.drop_last() =~= s.drop_last());
    } else {
        lemma_sand_count_update(s.drop_last(), i, p);
        assert(t.drop_last() =~= s.drop_last().update(i, p));
    }
}

/// How replacing one cell affects the sand count of each prefix: only
/// prefixes that contain the replaced cell shift.
pub proof fn lemma_sand_above_update(s: Seq<Particle>, i: int, p: Particle, n: int)
    requires
        0 <= i < s.len(),
        0 <= n <= s.len(),
    ensures
        sand_above(s.update(i, p), n) == sand_above(s, n) + if i < n {
            sand_unit(p) - sand_unit(s[i])
        } else {
            0
        },
{
    if i < n {
        assert(s.update(i, p).take(n) =~= s.take(n).update(i, p));
        lemma_sand_count_update(s.take(n), i, p);
    } else {
        assert(s.update(i, p).take(n) =~= s.take(n));
    }
}

} // verus!
