//! The genetic driver's breeding step. Ranking units by their floating-point
//! fitness is the caller's part: `epoch` takes the units already ranked.
use crate::bin::Bin;
use crate::geometry::StockPiece;
use crate::unit::{holds_span, unused_unavoidable, OptimizerUnit};
use rand::rngs::StdRng;
use crate::random::gen_range;
use vstd::prelude::*;

verus! {

/// Units that can breed together: valid, with one catalogue and one kerf.
pub open spec fn compatible<B: Bin>(units: Seq<OptimizerUnit<B>>, possible: Seq<StockPiece>, blade: usize) -> bool {
    forall|i: int|
        0 <= i < units.len() ==> (#[trigger] units[i]).wf() && units[i].possible_stock_pieces@ == possible
            && units[i].blade_width == blade
}

/// No unit has left a piece unplaced that an unlimited stock entry could take.
pub open spec fn all_unavoidable<B: Bin>(units: Seq<OptimizerUnit<B>>) -> bool {
    forall|i: int|
        0 <= i < units.len() ==> unused_unavoidable(
            (#[trigger] units[i]).possible_stock_pieces@,
            units[i].unused_cut_pieces@,
        )
}

/// `child` was bred from `parent` with `partner`: unless neither has two bins
/// or the partner has none, it holds a span of the partner's bins.
pub open spec fn bred_from<B: Bin>(child: OptimizerUnit<B>, parent: OptimizerUnit<B>, partner: OptimizerUnit<B>) -> bool {
    !((parent.bins@.len() < 2 && partner.bins@.len() < 2) || partner.bins@.len() == 0) ==> exists|s: int, e: int|
        0 <= s < e <= partner.bins@.len() && #[trigger] holds_span(child.bins@, partner.bins@, s, e)
}

/// Child `c` of `children` was bred from breeder `c mod b`, the `b` fittest of
/// `ranked` being the breeders, fittest first, with some breeder as partner.
pub open spec fn bred_by_rank<B: Bin>(children: Seq<OptimizerUnit<B>>, ranked: Seq<OptimizerUnit<B>>, b: int, c: int) -> bool {
    exists|rs: int|
        0 <= rs < b && #[trigger] bred_from(children[c], ranked[ranked.len() - 1 - c % b], ranked[ranked.len() - 1 - rs])
}

/// How many of `n` ranked units breed: `breed_percent` of them, rounded down,
/// or all of them when that rounds to none.
pub open spec fn spec_breeders(n: int, breed_percent: int) -> int {
    if n * breed_percent / 100 == 0 { n } else { n * breed_percent / 100 }
}

/// How many of `b` breeders survive: `survival_percent` of them, rounded up.
pub open spec fn spec_survivors(b: int, survival_percent: int) -> int {
    (b * survival_percent + 99) / 100
}

/// A population of units and the parameters of its evolution.
pub struct Population<B: Bin> {
    units: Vec<OptimizerUnit<B>>,
    seed: u64,
    breed_percent: usize,
    survival_percent: usize,
    max_size: usize,
}

impl<B: Bin> Population<B> {
    pub closed spec fn spec_units(&self) -> Seq<OptimizerUnit<B>> {
        self.units@
    }

    pub closed spec fn spec_seed(&self) -> u64 {
        self.seed
    }

    pub closed spec fn spec_breed_percent(&self) -> usize {
        self.breed_percent
    }

    pub closed spec fn spec_survival_percent(&self) -> usize {
        self.survival_percent
    }

    pub closed spec fn spec_max_size(&self) -> usize {
        self.max_size
    }

    /// Parameters in range: a breed share in (0, 100] percent and a survival
    /// share in [0, 100] percent.
    pub open spec fn params_ok(&self) -> bool {
        0 < self.spec_breed_percent() <= 100 && self.spec_survival_percent() <= 100
    }

    /// Creates a population of the given units, with seed 1, half of them
    /// breeding, half of those surviving, and room for 100.
    pub fn new(init_pop: Vec<OptimizerUnit<B>>) -> (r: Self)
        ensures
            r.spec_units() == init_pop@,
            r.spec_seed() == 1,
            r.spec_breed_percent() == 50,
            r.spec_survival_percent() == 50,
            r.spec_max_size() == 100,
            r.params_ok(),
    {
        Population { units: init_pop, seed: 1, breed_percent: 50, survival_percent: 50, max_size: 100 }
    }

    /// Sets the random seed of the population.
    pub fn set_rand_seed(&mut self, seed: u64) -> (r: &mut Self)
        ensures
            r.spec_seed() == seed,
            r.spec_units() == old(self).spec_units(),
            r.spec_breed_percent() == old(self).spec_breed_percent(),
            r.spec_survival_percent() == old(self).spec_survival_percent(),
            r.spec_max_size() == old(self).spec_max_size(),
            *final(r) == *final(self),
    {
        self.seed = seed;
        self
    }

    /// Sets the size of the population, dropping the units beyond it.
    pub fn set_size(&mut self, size: usize) -> (r: &mut Self)
        ensures
            r.spec_max_size() == size,
            r.spec_units() == if old(self).spec_units().len() > size {
                old(self).spec_units().subrange(0, size as int)
            } else {
                old(self).spec_units()
            },
            r.spec_seed() == old(self).spec_seed(),
            r.spec_breed_percent() == old(self).spec_breed_percent(),
            r.spec_survival_percent() == old(self).spec_survival_percent(),
            *final(r) == *final(self),
    {
        self.units.truncate(size);
        self.max_size = size;
        self
    }

    /// Sets the share of the population, in percent, that breeds each epoch.
    pub fn set_breed_factor(&mut self, breed_percent: usize) -> (r: &mut Self)
        requires
            0 < breed_percent <= 100,
        ensures
            r.spec_breed_percent() == breed_percent,
            r.spec_units() == old(self).spec_units(),
            r.spec_seed() == old(self).spec_seed(),
            r.spec_survival_percent() == old(self).spec_survival_percent(),
            r.spec_max_size() == old(self).spec_max_size(),
            *final(r) == *final(self),
    {
        self.breed_percent = breed_percent;
        self
    }

    /// Sets the share of the breeders, in percent, that survives each epoch.
    pub fn set_survival_factor(&mut self, survival_percent: usize) -> (r: &mut Self)
        requires
            survival_percent <= 100,
        ensures
            r.spec_survival_percent() == survival_percent,
            r.spec_units() == old(self).spec_units(),
            r.spec_seed() == old(self).spec_seed(),
            r.spec_breed_percent() == old(self).spec_breed_percent(),
            r.spec_max_size() == old(self).spec_max_size(),
            *final(r) == *final(self),
    {
        self.survival_percent = survival_percent;
        self
    }

    pub fn seed(&self) -> (r: u64)
        ensures
            r == self.spec_seed(),
    {
        self.seed
    }

    pub fn max_size(&self) -> (r: usize)
        ensures
            r == self.spec_max_size(),
    {
        self.max_size
    }

    /// Hands the units over, leaving the population empty.
    pub fn finish(&mut self) -> (r: Vec<OptimizerUnit<B>>)
        ensures
            r@ == old(self).spec_units(),
            final(self).spec_units().len() == 0,
            final(self).spec_seed() == old(self).spec_seed(),
            final(self).spec_breed_percent() == old(self).spec_breed_percent(),
            final(self).spec_survival_percent() == old(self).spec_survival_percent(),
            final(self).spec_max_size() == old(self).spec_max_size(),
    {
        let mut empty_units: Vec<OptimizerUnit<B>> = Vec::new();
        std::mem::swap(&mut empty_units, &mut self.units);
        empty_units
    }

    /// One generation: `units` come ranked by fitness, the fittest last. The
    /// fittest share breeds; each child is bred by the breeders in turn with a
    /// partner drawn at random; the next generation is the children followed by
    /// the surviving fittest breeders, fittest first, `max_size` units in all.
    pub fn epoch(&self, units: Vec<OptimizerUnit<B>>, rng: &mut StdRng) -> (r: Vec<OptimizerUnit<B>>)
        requires
            self.params_ok(),
            units@.len() > 0,
            units@.len() <= self.spec_max_size(),
            compatible(units@, units@[0].possible_stock_pieces@, units@[0].blade_width),
        ensures
            r@.len() == self.spec_max_size(),
            compatible(r@, units@[0].possible_stock_pieces@, units@[0].blade_width),
            all_unavoidable(units@) ==> all_unavoidable(r@),
            forall|i: int|
                0 <= i < self.spec_max_size() - spec_survivors(
                    spec_breeders(units@.len() as int, self.spec_breed_percent() as int),
                    self.spec_survival_percent() as int,
                ) ==> #[trigger] bred_by_rank(r@, units@, spec_breeders(units@.len() as int, self.spec_breed_percent() as int), i),
            forall|t: int|
                0 <= t < spec_survivors(spec_breeders(units@.len() as int, self.spec_breed_percent() as int), self.spec_survival_percent() as int)
                    ==> #[trigger] r@[self.spec_max_size() - spec_survivors(spec_breeders(units@.len() as int, self.spec_breed_percent() as int), self.spec_survival_percent() as int) + t]
                    == units@[units@.len() - 1 - t],
    {
        let ghost possible = units@[0].possible_stock_pieces@;
        let ghost blade = units@[0].blade_width;
        let ghost ranked = units@;
        let n = units.len();
        proof {
            assert(n * self.breed_percent <= n * 100) by (nonlinear_arith)
                requires self.breed_percent <= 100;
            assert(n * self.breed_percent / 100 <= n) by (nonlinear_arith)
                requires n * self.breed_percent <= n * 100;
        }
        let breed_up_to = ((n as u128) * (self.breed_percent as u128) / 100) as usize;
        let mut units = units;
        let mut breeders: Vec<OptimizerUnit<B>> = Vec::new();
        let mut full = false;
        while units.len() > 0 && !full
            invariant
                n == ranked.len(),
                breed_up_to <= n,
                units@ == ranked.subrange(0, n - breeders@.len()),
                breeders@.len() <= n,
                full == (breeders@.len() == breed_up_to && breed_up_to > 0),
                breed_up_to == n * self.breed_percent / 100,
                breed_up_to > 0 ==> breeders@.len() <= breed_up_to,
                forall|t: int| 0 <= t < breeders@.len() ==> #[trigger] breeders@[t] == ranked[n - 1 - t],
                compatible(ranked, possible, blade),
                all_unavoidable(ranked) ==> all_unavoidable(breeders@),
            decreases units@.len(),
        {
            let ghost before = breeders@;
            match units.pop() {
                Some(unit) => {
                    breeders.push(unit);
                    proof {
                        assert(units@ =~= ranked.subrange(0, n - breeders@.len()));
                    }
                    full = breeders.len() == breed_up_to;
                },
                None => {},
            }
        }
        let b = breeders.len();
        proof {
            assert(b == spec_breeders(n as int, self.breed_percent as int));
            assert(b * self.survival_percent <= b * 100) by (nonlinear_arith)
                requires self.survival_percent <= 100;
            assert((b * self.survival_percent + 99) / 100 <= b) by (nonlinear_arith)
                requires b * self.survival_percent <= b * 100, b >= 1;
        }
        let surviving = (((b as u128) * (self.survival_percent as u128) + 99) / 100) as usize;
        let mut next: Vec<OptimizerUnit<B>> = Vec::new();
        let mut i: usize = 0;
        while i < self.max_size - surviving
            invariant
                b == breeders@.len(),
                b >= 1,
                surviving <= b,
                b <= n,
                n <= self.spec_max_size(),
                i <= self.max_size - surviving,
                next@.len() == i,
                compatible(breeders@, possible, blade),
                compatible(next@, possible, blade),
                all_unavoidable(ranked) ==> all_unavoidable(breeders@) && all_unavoidable(next@),
                n == ranked.len(),
                forall|t: int| 0 <= t < breeders@.len() ==> #[trigger] breeders@[t] == ranked[n - 1 - t],
                forall|c: int| 0 <= c < i ==> #[trigger] bred_by_rank(next@, ranked, b as int, c),
            decreases self.max_size - surviving - i,
        {
            let rs = gen_range(rng, 0, b - 1);
            proof {
                assert(breeders@[(i % b) as int].wf());
                assert(breeders@[rs as int].wf());
            }
            let child = breeders[i % b].breed_with(&breeders[rs], rng);
            let ghost before = next@;
            next.push(child);
            proof {
                assert(bred_from(child, ranked[n - 1 - (i as int) % (b as int)], ranked[n - 1 - rs as int]));
                assert forall|c: int| 0 <= c < i + 1 implies #[trigger] bred_by_rank(next@, ranked, b as int, c) by {
                    if c < i {
                        assert(next@[c] == before[c]);
                        assert(bred_by_rank(before, ranked, b as int, c));
                        let r2 = choose|r2: int| 0 <= r2 < b && #[trigger] bred_from(before[c], ranked[n - 1 - c % (b as int)], ranked[n - 1 - r2]);
                        assert(bred_from(next@[c], ranked[n - 1 - c % (b as int)], ranked[n - 1 - r2]));
                    } else {
                        assert(next@[c] == child);
                        assert(bred_from(next@[c], ranked[n - 1 - c % (b as int)], ranked[n - 1 - rs as int]));
                    }
                }
            }
            i += 1;
        }
        let ghost children = next@;
        let mut t: usize = 0;
        while t < surviving
            invariant
                surviving <= b,
                t <= surviving,
                breeders@.len() == b - t,
                forall|m: int| 0 <= m < breeders@.len() ==> #[trigger] breeders@[m] == ranked[n - 1 - t - m],
                next@.len() == children.len() + t,
                next@.subrange(0, children.len() as int) == children,
                forall|m: int| 0 <= m < t ==> #[trigger] next@[children.len() + m] == ranked[n - 1 - m],
                compatible(breeders@, possible, blade),
                compatible(next@, possible, blade),
                compatible(ranked, possible, blade),
                all_unavoidable(ranked) ==> all_unavoidable(breeders@) && all_unavoidable(next@),
            decreases surviving - t,
        {
            let ghost before = next@;
            let ghost bbefore = breeders@;
            let unit = breeders.remove(0);
            next.push(unit);
            proof {
                assert(next@.subrange(0, children.len() as int) =~= before.subrange(0, children.len() as int));
                assert forall|m: int| 0 <= m < breeders@.len() implies #[trigger] breeders@[m] == ranked[n - 1 - (t + 1) - m] by {
                    assert(breeders@[m] == bbefore[m + 1]);
                }
            }
            t += 1;
        }
        proof {
            assert(surviving == spec_survivors(b as int, self.survival_percent as int));
            assert(children.len() == self.max_size - surviving);
            assert forall|c: int| 0 <= c < children.len() implies #[trigger] bred_by_rank(next@, ranked, b as int, c) by {
                assert(next@[c] == next@.subrange(0, children.len() as int)[c]);
                assert(next@[c] == children[c]);
                assert(bred_by_rank(children, ranked, b as int, c));
                let r2 = choose|r2: int| 0 <= r2 < b && #[trigger] bred_from(children[c], ranked[n - 1 - c % (b as int)], ranked[n - 1 - r2]);
                assert(bred_from(next@[c], ranked[n - 1 - c % (b as int)], ranked[n - 1 - r2]));
            }
        }
        next
    }
}

} // verus!
