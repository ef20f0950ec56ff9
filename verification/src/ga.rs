//! The genetic optimizer of the placement weights.

use crate::ai::{chosen, eval, placed_from, searched};
use crate::block::block_kind::NONE;
use crate::block::{is_bag, BlockShape};
use crate::board::{
    blanks, cell_hits, collides, erased, fixed, full_rows, lemma_erase_line, lemma_erased_same,
    lemma_fixed_blanks, lemma_fixed_full_rows, lemma_fixed_twice,
};
use crate::game::{
    can_land, held, landed, landing, lockable, score_for, started, Game, GameView,
};
use crate::order::{
    keyed, lemma_held_keyed, lemma_in_well_box, lemma_landed_wf, lemma_spawned_keyed,
};
use crate::random::{random_byte, random_in_range, shuffle};
use std::ops::RangeInclusive;
use vstd::prelude::*;
use vstd::set_lib::{lemma_int_range, lemma_len_subset, set_int_range};

verus! {

/// How many individuals a generation has.
pub const POPULATION: usize = 10;

/// How many generations the optimizer breeds.
pub const GENERATION_MAX: usize = 10;

/// An individual's game ends when it has cleared this many rows.
pub const LINE_COUNT_MAX: usize = 256;

/// The share of a generation, in percent, that is bred by crossover.
pub const CROSSOVER_RATE: usize = 70;

/// How many genomes of a generation are bred by crossover.
pub const CROSSOVER_LEN: usize = POPULATION * CROSSOVER_RATE / 100;

/// The share of a generation, in percent, that is bred by mutation.
pub const MUTATION_RATE: usize = 10;

/// How many genomes of a generation are bred by mutation.
pub const MUTATION_LEN: usize = POPULATION * MUTATION_RATE / 100;

/// The share of a generation, in percent, that is taken over as it is.
pub const SELECTION_RATE: usize = 20;

/// How many genomes of a generation are taken over as they are.
pub const SELECTION_LEN: usize = POPULATION * SELECTION_RATE / 100;

/// What a gene weighs.
#[derive(Clone, Copy, Debug, PartialEq, Eq, Structural)]
pub enum GenomeKind {
    Line,
    HeightMax,
    HeightDiff,
    DeadSpace,
}

/// The genes of an individual: one weight for each [`GenomeKind`].
pub type GenoSeq = [u8; 4];

impl GenomeKind {
    /// Where the gene of this kind stands in a [`GenoSeq`].
    pub open spec fn spec_index(self) -> int {
        match self {
            GenomeKind::Line => 0,
            GenomeKind::HeightMax => 1,
            GenomeKind::HeightDiff => 2,
            GenomeKind::DeadSpace => 3,
        }
    }

    /// The gene of this kind among `geno`.
    pub open spec fn of(self, geno: GenoSeq) -> u8 {
        geno[self.spec_index()]
    }

    /// The gene of this kind among `geno`.
    pub fn index(self, geno: &GenoSeq) -> (gene: u8)
        ensures
            gene == self.of(*geno),
    {
        match self {
            GenomeKind::Line => geno[0],
            GenomeKind::HeightMax => geno[1],
            GenomeKind::HeightDiff => geno[2],
            GenomeKind::DeadSpace => geno[3],
        }
    }
}

/// One candidate set of weights, and what it scored in its game.
#[derive(Clone, Copy, Debug)]
pub struct Individual {
    pub geno: GenoSeq,
    pub score: usize,
}

/// `RangeInclusive::start`: the lower bound that the range was made with.
#[verifier::external_body]
fn range_start(range: &RangeInclusive<usize>) -> (start: usize)
    ensures
        start == range@.start,
{
    *range.start()
}

/// `RangeInclusive::end`: the upper bound that the range was made with.
#[verifier::external_body]
fn range_end(range: &RangeInclusive<usize>) -> (end: usize)
    ensures
        end == range@.end,
{
    *range.end()
}

/// `RangeInclusive::is_empty`: whether the range holds no index, because its
/// bounds are out of order or because it has been walked to its end.
#[verifier::external_body]
fn range_is_empty(range: &RangeInclusive<usize>) -> (empty: bool)
    ensures
        empty == (range@.exhausted || range@.start > range@.end),
{
    range.is_empty()
}

/// The items of `a`, but for the indices from `first` to `last`, both
/// included, where the items of `b` stand.
pub open spec fn swapped_in<T>(a: Seq<T>, b: Seq<T>, first: int, last: int) -> Seq<T> {
    Seq::new(
        a.len(),
        |k: int|
            if first <= k <= last {
                b[k]
            } else {
                a[k]
            },
    )
}

/// Exchanges the items of `x` and `y` at the indices of the range. A range
/// that holds no index changes nothing.
pub fn mem_swap_range<T>(x: &mut [T], y: &mut [T], range: RangeInclusive<usize>)
    requires
        range@.exhausted || range@.start > range@.end || (range@.end < old(x)@.len() && range@.end
            < old(y)@.len()),
    ensures
        range@.exhausted || range@.start > range@.end ==> final(x)@ == old(x)@ && final(y)@ == old(
            y,
        )@,
        !range@.exhausted && range@.start <= range@.end ==> final(x)@ == swapped_in(
            old(x)@,
            old(y)@,
            range@.start as int,
            range@.end as int,
        ) && final(y)@ == swapped_in(old(y)@, old(x)@, range@.start as int, range@.end as int),
{
    if range_is_empty(&range) {
        return ;
    }
    let first = range_start(&range);
    let last = range_end(&range);
    let mut i = first;
    while i <= last
        invariant
            first <= i <= last + 1,
            last < old(x)@.len(),
            last < old(y)@.len(),
            x@ == swapped_in(old(x)@, old(y)@, first as int, i - 1),
            y@ == swapped_in(old(y)@, old(x)@, first as int, i - 1),
        decreases last + 1 - i,
    {
        std::mem::swap(&mut x[i], &mut y[i]);
        i += 1;
        assert(x@ =~= swapped_in(old(x)@, old(y)@, first as int, i - 1));
        assert(y@ =~= swapped_in(old(y)@, old(x)@, first as int, i - 1));
    }
}


/// The genes of the individuals, one after the other.
pub open spec fn genos_of(inds: Seq<Individual>) -> Seq<GenoSeq> {
    Seq::new(inds.len(), |i: int| inds[i].geno)
}

/// Individual `i` is no worse than individual `j`: it scored more, or as much
/// and stands no later.
pub open spec fn ahead(inds: Seq<Individual>, i: int, j: int) -> bool {
    inds[i].score > inds[j].score || (inds[i].score == inds[j].score && i <= j)
}

/// Individual `i` is the best of those that are not among `taken`.
pub open spec fn is_next_best(inds: Seq<Individual>, taken: Seq<int>, i: int) -> bool {
    &&& 0 <= i < inds.len()
    &&& !taken.contains(i)
    &&& forall|j: int| 0 <= j < inds.len() && !taken.contains(j) ==> ahead(inds, i, j)
}

/// The indices of the `n` best individuals, best first: in descending order
/// of score, and those of equal score in the order in which they stand.
pub open spec fn ranking(inds: Seq<Individual>, n: nat) -> Seq<int>
    decreases n,
{
    if n == 0 {
        Seq::empty()
    } else {
        let before = ranking(inds, (n - 1) as nat);
        before.push(choose|i: int| is_next_best(inds, before, i))
    }
}

/// What a selection returns: the genes of the best individuals, best first.
pub open spec fn is_selection(inds: Seq<Individual>, out: Seq<GenoSeq>) -> bool {
    &&& out.len() == SELECTION_LEN
    &&& forall|k: int|
        0 <= k < SELECTION_LEN ==> #[trigger] out[k] == inds[ranking(
            inds,
            SELECTION_LEN as nat,
        )[k]].geno
}

/// Fewer indices than there are individuals leave one of them out.
proof fn lemma_one_left(n: int, taken: Seq<int>)
    requires
        taken.len() < n,
    ensures
        exists|j: int| 0 <= j < n && !taken.contains(j),
{
    if forall|j: int| 0 <= j < n ==> taken.contains(j) {
        let all = set_int_range(0, n);
        lemma_int_range(0, n);
        taken.lemma_cardinality_of_set();
        assert(all.subset_of(taken.to_set())) by {
            assert forall|j: int| all.contains(j) implies taken.to_set().contains(j) by {
                assert(taken.contains(j));
            }
        }
        lemma_len_subset(all, taken.to_set());
    }
}

/// The index of the best individual that is not marked as used.
fn next_best(inds: &[Individual], used: &Vec<bool>, Ghost(taken): Ghost<Seq<int>>) -> (best: usize)
    requires
        used@.len() == inds@.len(),
        taken.len() < inds@.len(),
        forall|j: int| 0 <= j < inds@.len() ==> used@[j] == taken.contains(j),
    ensures
        is_next_best(inds@, taken, best as int),
{
    let mut best: usize = 0;
    let mut found = false;
    for j in 0..inds.len()
        invariant
            used@.len() == inds@.len(),
            forall|j0: int| 0 <= j0 < inds@.len() ==> used@[j0] == taken.contains(j0),
            !found ==> forall|j0: int| 0 <= j0 < j ==> taken.contains(j0),
            found ==> best < j && !taken.contains(best as int) && forall|j0: int|
                0 <= j0 < j && !taken.contains(j0) ==> ahead(inds@, best as int, j0),
    {
        if !used[j] && (!found || inds[j].score > inds[best].score) {
            best = j;
            found = true;
        }
    }
    proof {
        lemma_one_left(inds@.len() as int, taken);
    }
    best
}

/// The genes of the best individuals, best first.
pub fn selection(inds: &[Individual]) -> (out: [GenoSeq; SELECTION_LEN])
    requires
        inds@.len() >= SELECTION_LEN,
    ensures
        is_selection(inds@, out@),
{
    let mut out: [GenoSeq; SELECTION_LEN] = [[0, 0, 0, 0]; SELECTION_LEN];
    let mut used: Vec<bool> = Vec::new();
    for j in 0..inds.len()
        invariant
            used@.len() == j,
            forall|j0: int| 0 <= j0 < j ==> !used@[j0],
    {
        used.push(false);
    }
    let ghost taken: Seq<int> = Seq::empty();
    for k in 0..SELECTION_LEN
        invariant
            inds@.len() >= SELECTION_LEN,
            used@.len() == inds@.len(),
            taken == ranking(inds@, k as nat),
            taken.len() == k,
            forall|j: int| 0 <= j < inds@.len() ==> used@[j] == taken.contains(j),
            forall|k0: int| 0 <= k0 < k ==> 0 <= #[trigger] taken[k0] < inds@.len() && out@[k0]
                == inds@[taken[k0]].geno,
    {
        let best = next_best(inds, &used, Ghost(taken));
        proof {
            let pick = choose|i: int| is_next_best(inds@, taken, i);
            assert(ahead(inds@, pick, best as int) && ahead(inds@, best as int, pick));
            let grown = taken.push(best as int);
            assert forall|j: int| 0 <= j < inds@.len() implies (j == best || taken.contains(j))
                == grown.contains(j) by {
                if j == best {
                    assert(grown[taken.len() as int] == j);
                } else if taken.contains(j) {
                    let at = choose|at: int| 0 <= at < taken.len() && taken[at] == j;
                    assert(grown[at] == j);
                } else if grown.contains(j) {
                    let at = choose|at: int| 0 <= at < grown.len() && grown[at] == j;
                    assert(taken[at] == j);
                }
            }
            taken = grown;
        }
        out[k] = inds[best].geno;
        used[best] = true;
    }
    out
}


/// An individual with genes drawn at random, that has not played yet.
pub fn random_individual() -> (ind: Individual)
    ensures
        ind.score == 0,
{
    let geno: GenoSeq = [random_byte(), random_byte(), random_byte(), random_byte()];
    Individual { geno, score: 0 }
}

/// A first generation: individuals with genes drawn at random.
pub fn random_population() -> (inds: [Individual; POPULATION])
    ensures
        forall|i: int| 0 <= i < POPULATION ==> (#[trigger] inds[i]).score == 0,
{
    let mut inds: [Individual; POPULATION] = [Individual { geno: [0, 0, 0, 0], score: 0 };
        POPULATION];
    for i in 0..POPULATION
        invariant
            forall|j: int| 0 <= j < POPULATION ==> (#[trigger] inds[j]).score == 0,
    {
        inds[i] = random_individual();
    }
    inds
}

/// The genes of the individuals, copied out.
pub fn collect_genos(inds: &[Individual]) -> (genos: Vec<GenoSeq>)
    ensures
        genos@ == genos_of(inds@),
{
    let mut genos: Vec<GenoSeq> = Vec::new();
    for i in 0..inds.len()
        invariant
            genos@ == genos_of(inds@).subrange(0, i as int),
    {
        genos.push(inds[i].geno);
        assert(genos@ =~= genos_of(inds@).subrange(0, i + 1));
    }
    assert(genos@ =~= genos_of(inds@));
    genos
}

/// Where a pair of genomes is cut for a crossover: the first and the last
/// gene that change sides.
#[derive(Clone, Copy, Debug)]
pub struct Cut {
    pub first: usize,
    pub last: usize,
}

/// The cut lies within a genome.
pub open spec fn valid_cut(cut: Cut) -> bool {
    cut.first <= cut.last < 4
}

/// The genome `a` with the genes from `cut.first` to `cut.last` taken from `b`.
pub open spec fn spliced(a: GenoSeq, b: GenoSeq, cut: Cut) -> GenoSeq {
    [
        if cut.first <= 0 <= cut.last { b[0] } else { a[0] },
        if cut.first <= 1 <= cut.last { b[1] } else { a[1] },
        if cut.first <= 2 <= cut.last { b[2] } else { a[2] },
        if cut.first <= 3 <= cut.last { b[3] } else { a[3] },
    ]
}

/// The genomes after a two-point crossover. They are paired off as they stand,
/// and pair number `i` exchanges its genes from `cuts[i].first` to
/// `cuts[i].last`; a last genome without a partner stays as it is.
pub open spec fn crossed(genos: Seq<GenoSeq>, cuts: Seq<Cut>) -> Seq<GenoSeq> {
    Seq::new(
        genos.len(),
        |i: int|
            if i % 2 == 0 && i + 1 < genos.len() {
                spliced(genos[i], genos[i + 1], cuts[i / 2])
            } else if i % 2 == 1 {
                spliced(genos[i], genos[i - 1], cuts[i / 2])
            } else {
                genos[i]
            },
    )
}

/// Crosses the genomes pair by pair at the given cuts.
pub fn cross_pairs(genos: &mut Vec<GenoSeq>, cuts: &Vec<Cut>)
    requires
        cuts@.len() * 2 + 1 >= old(genos)@.len(),
        forall|i: int| 0 <= i < cuts@.len() ==> valid_cut(#[trigger] cuts@[i]),
    ensures
        final(genos)@ == crossed(old(genos)@, cuts@),
{
    let n = genos.len();
    let mut i: usize = 0;
    while i + 1 < n
        invariant
            n == genos@.len(),
            n == old(genos)@.len(),
            i % 2 == 0,
            i <= n,
            cuts@.len() * 2 + 1 >= n,
            forall|c: int| 0 <= c < cuts@.len() ==> valid_cut(#[trigger] cuts@[c]),
            forall|j: int| 0 <= j < i ==> #[trigger] genos@[j] == crossed(old(genos)@, cuts@)[j],
            forall|j: int| i <= j < n ==> #[trigger] genos@[j] == old(genos)@[j],
        decreases n - i,
    {
        let mut geno1 = genos[i];
        let mut geno2 = genos[i + 1];
        let cut = &cuts[i / 2];
        assert(valid_cut(cuts@[i as int / 2]));
        let range = RangeInclusive::new(cut.first, cut.last);
        let ghost one = geno1;
        let ghost two = geno2;
        mem_swap_range(&mut geno1, &mut geno2, range);
        assert(geno1 =~= spliced(one, two, *cut));
        assert(geno2 =~= spliced(two, one, *cut));
        genos[i] = geno1;
        genos[i + 1] = geno2;
        i += 2;
    }
    assert(genos@ =~= crossed(old(genos)@, cuts@));
}

/// Cuts drawn at random, one for each pair among `n` genomes.
pub fn draw_cuts(n: usize) -> (cuts: Vec<Cut>)
    ensures
        cuts@.len() == n / 2,
        forall|i: int| 0 <= i < cuts@.len() ==> valid_cut(#[trigger] cuts@[i]),
{
    let mut cuts: Vec<Cut> = Vec::new();
    let mut i: usize = 0;
    while i + 1 < n
        invariant
            i == cuts@.len() * 2,
            i <= n,
            forall|c: int| 0 <= c < cuts@.len() ==> valid_cut(#[trigger] cuts@[c]),
        decreases n - i,
    {
        let first = random_in_range(0, 4);
        let last = random_in_range(first, 4);
        cuts.push(Cut { first, last });
        i += 2;
    }
    cuts
}

/// `out` is the start of `all`, which holds, in some order, the genomes that
/// the two-point crossover at `cuts`, one cut for each pair, makes of the
/// individuals' genomes.
pub open spec fn crossover_by(
    inds: Seq<Individual>,
    cuts: Seq<Cut>,
    all: Seq<GenoSeq>,
    out: Seq<GenoSeq>,
) -> bool {
    &&& cuts.len() == inds.len() / 2
    &&& forall|i: int| 0 <= i < cuts.len() ==> valid_cut(#[trigger] cuts[i])
    &&& all.to_multiset() == crossed(genos_of(inds), cuts).to_multiset()
    &&& out == all.subrange(0, CROSSOVER_LEN as int)
}

/// What a crossover returns: so many of the genomes that some two-point
/// crossover of the individuals' genomes gives, in any order.
pub open spec fn is_crossover(inds: Seq<Individual>, out: Seq<GenoSeq>) -> bool {
    &&& out.len() == CROSSOVER_LEN
    &&& exists|cuts: Seq<Cut>, all: Seq<GenoSeq>| #[trigger] crossover_by(inds, cuts, all, out)
}

/// Breeds genomes by two-point crossover: pairs the individuals off, lets each
/// pair exchange a run of genes chosen at random, and returns some of the
/// results.
pub fn crossover(inds: &[Individual]) -> (out: [GenoSeq; CROSSOVER_LEN])
    requires
        inds@.len() >= CROSSOVER_LEN,
    ensures
        is_crossover(inds@, out@),
{
    let mut genos = collect_genos(inds);
    let cuts = draw_cuts(genos.len());
    cross_pairs(&mut genos, &cuts);
    let ghost bred = genos@;
    shuffle(&mut genos);
    proof {
        genos@.to_multiset_ensures();
        bred.to_multiset_ensures();
    }
    let mut out: [GenoSeq; CROSSOVER_LEN] = [[0, 0, 0, 0]; CROSSOVER_LEN];
    for k in 0..CROSSOVER_LEN
        invariant
            genos@.len() >= CROSSOVER_LEN,
            forall|k0: int| 0 <= k0 < k ==> #[trigger] out@[k0] == genos@[k0],
    {
        out[k] = genos[k];
    }
    assert(out@ =~= genos@.subrange(0, CROSSOVER_LEN as int));
    assert(crossover_by(inds@, cuts@, genos@, out@));
    out
}


/// The genome with the gene at `locus` replaced by `value`.
pub open spec fn mutated(geno: GenoSeq, locus: int, value: u8) -> GenoSeq {
    [
        if locus == 0 { value } else { geno[0] },
        if locus == 1 { value } else { geno[1] },
        if locus == 2 { value } else { geno[2] },
        if locus == 3 { value } else { geno[3] },
    ]
}

/// Replaces one gene of the genome.
pub fn mutate(geno: &mut GenoSeq, locus: usize, value: u8)
    requires
        locus < 4,
    ensures
        *final(geno) == mutated(*old(geno), locus as int, value),
{
    geno[locus] = value;
    assert(*geno =~= mutated(*old(geno), locus as int, value));
}

/// `after` is `before` with one gene replaced.
pub open spec fn is_mutant(before: GenoSeq, after: GenoSeq) -> bool {
    exists|locus: int, value: u8| 0 <= locus < 4 && after == #[trigger] mutated(before, locus, value)
}

/// `out` holds a genome of `from` with one gene replaced, for each of the
/// first genomes of `from`, which are the individuals' genomes in some order.
pub open spec fn mutation_of(inds: Seq<Individual>, from: Seq<GenoSeq>, out: Seq<GenoSeq>) -> bool {
    &&& from.to_multiset() == genos_of(inds).to_multiset()
    &&& forall|k: int| 0 <= k < MUTATION_LEN ==> is_mutant(from[k], #[trigger] out[k])
}

/// What a mutation returns: genomes of as many different individuals, each
/// with one gene replaced.
pub open spec fn is_mutation(inds: Seq<Individual>, out: Seq<GenoSeq>) -> bool {
    &&& out.len() == MUTATION_LEN
    &&& exists|from: Seq<GenoSeq>| #[trigger] mutation_of(inds, from, out)
}

/// Breeds genomes by mutation: picks individuals at random and gives one gene
/// of each, chosen at random, a random value.
pub fn mutation(inds: &[Individual]) -> (out: [GenoSeq; MUTATION_LEN])
    requires
        inds@.len() >= MUTATION_LEN,
    ensures
        is_mutation(inds@, out@),
{
    let mut genos = collect_genos(inds);
    shuffle(&mut genos);
    proof {
        genos@.to_multiset_ensures();
        genos_of(inds@).to_multiset_ensures();
    }
    let ghost from = genos@;
    let mut out: [GenoSeq; MUTATION_LEN] = [[0, 0, 0, 0]; MUTATION_LEN];
    for k in 0..MUTATION_LEN
        invariant
            genos@ == from,
            from.len() >= MUTATION_LEN,
            forall|k0: int| 0 <= k0 < k ==> is_mutant(from[k0], #[trigger] out@[k0]),
    {
        let mut geno = genos[k];
        let locus = random_in_range(0, 4);
        let value = random_byte();
        mutate(&mut geno, locus, value);
        out[k] = geno;
        assert(out@[k as int] == mutated(from[k as int], locus as int, value));
        assert(is_mutant(from[k as int], out@[k as int]));
    }
    assert(mutation_of(inds@, from, out@));
    out
}

/// `out` holds, in some order, the genomes `bred`, which are a crossover, a
/// mutation and a selection of the individuals, one after the other.
pub open spec fn generation_of(
    inds: Seq<Individual>,
    crossover: Seq<GenoSeq>,
    mutation: Seq<GenoSeq>,
    selection: Seq<GenoSeq>,
    out: Seq<GenoSeq>,
) -> bool {
    &&& is_crossover(inds, crossover)
    &&& is_mutation(inds, mutation)
    &&& is_selection(inds, selection)
    &&& out.to_multiset() == (crossover + mutation + selection).to_multiset()
}

/// The three groups of a new generation make up a whole generation.
pub proof fn lemma_group_sizes()
    ensures
        CROSSOVER_RATE + MUTATION_RATE + SELECTION_RATE == 100,
        CROSSOVER_LEN + MUTATION_LEN + SELECTION_LEN == POPULATION,
{
}

/// Breeds the genomes of the next generation: a crossover, a mutation and a
/// selection of the individuals, in random order.
pub fn gen_next_generation(inds: &[Individual]) -> (out: [GenoSeq; POPULATION])
    requires
        inds@.len() >= CROSSOVER_LEN,
    ensures
        exists|crossover: Seq<GenoSeq>, mutation: Seq<GenoSeq>, selection: Seq<GenoSeq>| #[trigger]
            generation_of(inds@, crossover, mutation, selection, out@),
{
    let crossed = crossover(inds);
    let mutants = mutation(inds);
    let selected = selection(inds);
    let mut genos: Vec<GenoSeq> = Vec::new();
    for k in 0..CROSSOVER_LEN
        invariant
            genos@ == crossed@.subrange(0, k as int),
    {
        genos.push(crossed[k]);
        assert(genos@ =~= crossed@.subrange(0, k + 1));
    }
    assert(genos@ =~= crossed@);
    for k in 0..MUTATION_LEN
        invariant
            genos@ == crossed@ + mutants@.subrange(0, k as int),
    {
        genos.push(mutants[k]);
        assert(genos@ =~= crossed@ + mutants@.subrange(0, k + 1));
    }
    assert(genos@ =~= crossed@ + mutants@);
    for k in 0..SELECTION_LEN
        invariant
            genos@ == crossed@ + mutants@ + selected@.subrange(0, k as int),
    {
        genos.push(selected[k]);
        assert(genos@ =~= crossed@ + mutants@ + selected@.subrange(0, k + 1));
    }
    assert(genos@ =~= crossed@ + mutants@ + selected@);
    let ghost bred = genos@;
    shuffle(&mut genos);
    proof {
        genos@.to_multiset_ensures();
        bred.to_multiset_ensures();
    }
    let mut out: [GenoSeq; POPULATION] = [[0, 0, 0, 0]; POPULATION];
    for k in 0..POPULATION
        invariant
            genos@.len() == POPULATION,
            forall|k0: int| 0 <= k0 < k ==> #[trigger] out@[k0] == genos@[k0],
    {
        out[k] = genos[k];
    }
    assert(out@ =~= genos@);
    assert(generation_of(inds@, crossed@, mutants@, selected@, out@));
    out
}

/// Gives the individuals the genomes of the next generation, in their order.
/// The scores stay until the individuals have played again.
pub fn install(inds: &mut [Individual; POPULATION], next: &[GenoSeq; POPULATION])
    ensures
        forall|i: int| 0 <= i < POPULATION ==> (#[trigger] final(inds)[i]).geno == next[i],
        forall|i: int|
            0 <= i < POPULATION ==> (#[trigger] final(inds)[i]).score == old(inds)[i].score,
{
    for i in 0..POPULATION
        invariant
            forall|j: int| 0 <= j < i ==> (#[trigger] inds[j]).geno == next[j],
            forall|j: int| 0 <= j < POPULATION ==> (#[trigger] inds[j]).score == old(inds)[j].score,
            forall|j: int| i <= j < POPULATION ==> #[trigger] inds[j] == old(inds)[j],
    {
        let score = inds[i].score;
        inds[i] = Individual { geno: next[i], score };
    }
}


/// One move of an individual's game, from `before` to `after`: the search
/// picks a placement, with `opened` as the bag that a hold opened if it needed
/// one; if the piece can be fixed there, it is fixed and the next piece comes
/// in, with `drawn` as the bag opened then if one was needed. The game goes on
/// if that piece has room.
pub open spec fn move_by(
    before: GameView,
    geno: GenoSeq,
    opened: Seq<BlockShape>,
    drawn: Seq<BlockShape>,
    after: GameView,
    more: bool,
) -> bool {
    let best = chosen(before, held(before, opened), geno);
    if lockable(best) {
        after == landed(best, drawn) && more == !collides(after.field, after.pos, after.block)
    } else {
        after == best && !more
    }
}

/// A piece placed from a game under way, or from that game after a hold,
/// fills a cell that was empty.
proof fn lemma_placed_fills(v: GameView, start: GameView, best: GameView)
    requires
        v.running(),
        best.wf(),
        placed_from(start, best),
        start.field == v.field,
        start.pos == v.pos,
        keyed(start.block),
    ensures
        blanks(best.field) < blanks(v.field),
{
    let g = v.field;
    lemma_in_well_box(best.pos, best.block);
    if !collides(g, best.pos, best.block) {
        let s = best.block;
        let y: int = if s[1][1] != NONE || s[1][2] != NONE {
            1
        } else {
            2
        };
        let x: int = if s[y][1] != NONE {
            1
        } else {
            2
        };
        assert(s[y][x] != NONE);
        assert(!cell_hits(g, best.pos, s, y, x));
        lemma_fixed_blanks(g, best.pos, s, y, x);
    } else {
        assert(!cell_hits(g, v.pos, v.block, 2, 1));
        lemma_fixed_blanks(g, best.pos, best.block, 2, 1);
    }
}

/// A move in a game under way that has rows left to clear: the piece can be
/// fixed where the search puts it; a row is cleared or a cell filled; and if
/// the piece that comes in has room, the game is under way again.
pub proof fn lemma_move(
    v: GameView,
    geno: GenoSeq,
    opened: Seq<BlockShape>,
    drawn: Seq<BlockShape>,
    best: GameView,
)
    requires
        v.running(),
        v.line < LINE_COUNT_MAX,
        is_bag(opened),
        is_bag(drawn),
        best.wf(),
        searched(v, opened, geno, best),
    ensures
        lockable(best),
        landed(best, drawn).line > v.line || blanks(landed(best, drawn).field) < blanks(v.field),
        landed(best, drawn).line >= v.line,
        !collides(
            landed(best, drawn).field,
            landed(best, drawn).pos,
            landed(best, drawn).block,
        ) ==> landed(best, drawn).running(),
{
    let h = held(v, opened);
    lemma_held_keyed(v, opened);
    let start = if placed_from(v, best) {
        v
    } else {
        h
    };
    assert(placed_from(start, best));
    let board = fixed(v.field, best.pos, best.block);
    assert(best.field == board);
    lemma_fixed_twice(v.field, best.pos, best.block);
    lemma_fixed_full_rows(v.field, best.pos, best.block);
    let rows = full_rows(board);
    assert(score_for(rows) <= 25 * rows);
    assert(lockable(best));
    let after = landed(best, drawn);
    lemma_landed_wf(best, drawn);
    lemma_placed_fills(v, start, best);
    lemma_erase_line(board);
    if rows == 0 {
        lemma_erased_same(board);
    }
    let cleared = GameView {
        field: erased(board),
        score: (best.score + score_for(rows)) as usize,
        line: (best.line + rows) as usize,
        ..best
    };
    lemma_spawned_keyed(cleared, drawn);
}

/// Plays one move of an individual's game: lets the search pick a placement
/// under the individual's weights and fixes the piece there. Returns whether
/// the game goes on. In a game under way that has rows left to clear, the
/// piece can always be fixed, the move clears a row or fills a cell, and the
/// game goes on under way unless the piece that comes in has no room.
pub fn play_move(game: &mut Game, geno: &GenoSeq) -> (more: bool)
    requires
        old(game)@.wf(),
    ensures
        exists|opened: Seq<BlockShape>, drawn: Seq<BlockShape>|
            is_bag(opened) && is_bag(drawn) && #[trigger] move_by(
                old(game)@,
                *geno,
                opened,
                drawn,
                final(game)@,
                more,
            ),
        final(game)@.wf(),
        final(game).line >= old(game).line,
        old(game)@.running() && old(game).line < LINE_COUNT_MAX ==> {
            &&& more == !collides(final(game)@.field, final(game).pos, final(game).block)
            &&& more ==> final(game)@.running()
            &&& final(game).line > old(game).line || blanks(final(game)@.field) < blanks(
                old(game)@.field,
            )
        },
{
    let elite = eval(game, geno);
    let ghost opened = choose|bag: Seq<BlockShape>|
        is_bag(bag) && #[trigger] searched(game@, bag, *geno, elite@);
    *game = elite;
    proof {
        lemma_in_well_box(game.pos, game.block);
        if old(game)@.running() && old(game).line < LINE_COUNT_MAX {
            lemma_move(old(game)@, *geno, opened, opened, game@);
        }
    }
    if !can_land(game) {
        assert(move_by(old(game)@, *geno, opened, opened, game@, false));
        return false;
    }
    let ghost best = game@;
    let res = landing(game);
    proof {
        let drawn = choose|bag: Seq<BlockShape>| is_bag(bag) && #[trigger] landed(best, bag) == game@;
        assert(move_by(old(game)@, *geno, opened, drawn, game@, res.is_ok()));
        if old(game)@.running() && old(game).line < LINE_COUNT_MAX {
            lemma_move(old(game)@, *geno, opened, drawn, best);
        }
    }
    res.is_ok()
}

/// A move leads from `before` to `after` under the weights `geno`.
pub open spec fn is_move(geno: GenoSeq, before: GameView, after: GameView) -> bool {
    exists|opened: Seq<BlockShape>, drawn: Seq<BlockShape>, more: bool|
        is_bag(opened) && is_bag(drawn) && #[trigger] move_by(
            before,
            geno,
            opened,
            drawn,
            after,
            more,
        )
}

/// The game `v` has been played for `moves` moves under the weights `geno`:
/// it is a new game, or a move leads to it from a game that has been played
/// for one move less.
pub open spec fn played(geno: GenoSeq, v: GameView, moves: nat) -> bool
    decreases moves,
{
    if moves == 0 {
        exists|first: Seq<BlockShape>, second: Seq<BlockShape>|
            is_bag(first) && is_bag(second) && #[trigger] started(first, second) == v
    } else {
        exists|before: GameView|
            played(geno, before, (moves - 1) as nat) && #[trigger] is_move(geno, before, v)
    }
}

/// The game is at its end: it has cleared [`LINE_COUNT_MAX`] rows, or the
/// piece that came in has no room.
pub open spec fn ended(v: GameView) -> bool {
    v.line >= LINE_COUNT_MAX || collides(v.field, v.pos, v.block)
}

/// Plays a whole game under the weights `geno` and returns it as it ended:
/// when it has cleared [`LINE_COUNT_MAX`] rows, or when a piece that comes in
/// has no room.
pub fn simulate(geno: &GenoSeq) -> (game: Game)
    ensures
        game@.wf(),
        exists|moves: nat| played(*geno, game@, moves),
        ended(game@),
{
    let mut game = Game::new();
    let ghost moves: nat = 0;
    while game.line < LINE_COUNT_MAX
        invariant_except_break
            game@.running(),
        invariant
            game@.wf(),
            played(*geno, game@, moves),
        ensures
            ended(game@),
        decreases
            (if game.line < LINE_COUNT_MAX {
                LINE_COUNT_MAX - game.line
            } else {
                0
            }),
            blanks(game@.field),
    {
        let ghost before = game@;
        let more = play_move(&mut game, geno);
        proof {
            assert(is_move(*geno, before, game@));
            moves = moves + 1;
            assert(played(*geno, game@, moves));
        }
        if !more {
            break ;
        }
    }
    game
}

} // verus!
