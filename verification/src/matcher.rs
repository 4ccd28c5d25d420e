//! The match pipeline: the evolutionary refinement of a guess.
//!
//! Each generation makes candidates around the best genome so far. Rendering them
//! and measuring their losses is outside work. Knobs are the bits of singles, and
//! losses those of nonnegative ones.

use crate::func::{of1, of3, pure1, pure3};
use crate::genome::{Genome, N_PARAMS};
use crate::order::{first_min, lemma_min_exists, min_at};
use crate::single::{clamp, clamped, in_unit, is_number};
use vstd::prelude::*;

verus! {

/// Candidates in a generation.
pub const LAMBDA: usize = 16;

/// Generations of a refinement that the user watches.
pub const GENS: usize = 60;

/// The seed of the mutations.
pub fn mutation_seed(seed: u64) -> (r: u64)
    ensures
        r == (seed + 1) % 0x1_0000_0000_0000_0000,
{
    seed.wrapping_add(1)
}

/// The seed with which the `i`th candidate of a generation is rendered.
pub fn render_seed(seed: u64, gen: usize, i: usize) -> (r: u64)
    requires
        gen * 131 + i <= u64::MAX,
    ensures
        r == seed ^ ((gen * 131 + i) as u64),
{
    let g: u64 = gen as u64;
    seed ^ (g * 131 + i as u64)
}

/// How far along a refinement is, in per cent.
pub fn progress_percent(gen: usize, gens: usize) -> (r: usize)
    requires
        gen < gens,
        gens * 100 <= usize::MAX,
    ensures
        r == (gen * 100) / gens as int,
        r < 100,
{
    assert((gen * 100) / (gens as int) < 100) by (nonlinear_arith)
        requires
            gen < gens,
    ;
    gen * 100 / gens
}

/// The best genome so far and its loss.
#[derive(Clone, Copy, Debug)]
pub struct Refined {
    pub genome: Genome<u32>,
    pub loss: u64,
}

/// A genome and its loss, as values.
pub struct Best {
    pub genome: Seq<u32>,
    pub loss: u64,
}

impl View for Refined {
    type V = Best;

    open spec fn view(&self) -> Best {
        Best { genome: self.genome@, loss: self.loss }
    }
}

/// The knobs of a list of genomes.
pub open spec fn knobs(genomes: Seq<Genome<u32>>) -> Seq<Seq<u32>> {
    genomes.map_values(|g: Genome<u32>| g@)
}

/// The first of the best candidates takes over where it is better.
pub open spec fn after_brood(best: Best, genomes: Seq<Seq<u32>>, losses: Seq<u64>) -> Best {
    let i = min_at(losses);
    if losses[i] < best.loss {
        Best { genome: genomes[i], loss: losses[i] }
    } else {
        best
    }
}

/// How wide the steps are after a generation: they cool a little every time, and
/// where nothing better came they settle first.
pub open spec fn sigma_after<S, A: Fn(S) -> S, C: Fn(S) -> S>(
    settle: A,
    cool: C,
    sigma: S,
    better: bool,
) -> S {
    if better {
        of1(cool, sigma)
    } else {
        of1(cool, of1(settle, sigma))
    }
}

// ---- a refinement under way ----------------------------------------------------------------

/// A refinement under way: the best so far, how wide the steps are with which the next
/// candidates are made, and how many generations there were of how many.
#[derive(Clone, Copy, Debug)]
pub struct Search<S: Copy> {
    pub best: Refined,
    pub sigma: S,
    pub gen: usize,
    pub gens: usize,
}

/// Where a refinement stands.
pub struct State<S> {
    pub best: Best,
    pub sigma: S,
    pub gen: int,
    pub gens: int,
}

impl<S: Copy> View for Search<S> {
    type V = State<S>;

    open spec fn view(&self) -> State<S> {
        State {
            best: self.best@,
            sigma: self.sigma,
            gen: self.gen as int,
            gens: self.gens as int,
        }
    }
}

/// A refinement of a guess over so many generations, before the first.
pub open spec fn started<S>(genome: Seq<u32>, loss: u64, sigma: S, gens: int) -> State<S> {
    State { best: Best { genome, loss }, sigma, gen: 0, gens }
}

/// The candidates of a generation: every knob of the best genome, moved by its noise
/// in steps of the current width, and held in its range.
pub open spec fn candidates<S, M: Fn(u32, u32, S) -> u32>(
    moved: M,
    s: State<S>,
    noise: Seq<Seq<u32>>,
) -> Seq<Seq<u32>> {
    Seq::new(
        noise.len(),
        |i: int|
            Seq::new(
                N_PARAMS as nat,
                |k: int| clamped(of3(moved, s.best.genome[k], noise[i][k], s.sigma)),
            ),
    )
}

/// The state after a generation.
pub open spec fn advanced<S, A: Fn(S) -> S, C: Fn(S) -> S>(
    settle: A,
    cool: C,
    s: State<S>,
    genomes: Seq<Seq<u32>>,
    losses: Seq<u64>,
) -> State<S> {
    let best = after_brood(s.best, genomes, losses);
    State {
        best,
        sigma: sigma_after(settle, cool, s.sigma, best.loss < s.best.loss),
        gen: s.gen + 1,
        gens: s.gens,
    }
}

impl<S: Copy> Search<S> {
    /// A refinement of a guess over so many generations.
    pub fn new(genome: Genome<u32>, loss: u64, sigma: S, gens: usize) -> (r: Self)
        ensures
            r@ == started(genome@, loss, sigma, gens as int),
    {
        Search { best: Refined { genome, loss }, sigma, gen: 0, gens }
    }

    /// Whether another generation is due.
    pub fn wants(&self) -> (r: bool)
        ensures
            r == (self@.gen < self@.gens),
    {
        self.gen < self.gens
    }

    /// The candidates of the next generation.
    pub fn candidates<M: Fn(u32, u32, S) -> u32>(&self, noise: &[Genome<u32>], moved: &M) -> (r: Vec<
        Genome<u32>,
    >)
        requires
            pure3(*moved),
        ensures
            knobs(r@) == candidates(*moved, self@, knobs(noise@)),
    {
        let ghost want = candidates(*moved, self@, knobs(noise@));
        let mut r: Vec<Genome<u32>> = Vec::new();
        let mut i: usize = 0;
        while i < noise.len()
            invariant
                i <= noise@.len(),
                pure3(*moved),
                want == candidates(*moved, self@, knobs(noise@)),
                r@.len() == i,
                forall|k: int| 0 <= k < i ==> (#[trigger] r@[k])@ == want[k],
            decreases noise@.len() - i,
        {
            let mut g: Genome<u32> = self.best.genome;
            let mut k: usize = 0;
            while k < N_PARAMS
                invariant
                    k <= N_PARAMS,
                    i < noise@.len(),
                    pure3(*moved),
                    forall|j: int|
                        0 <= j < k ==> #[trigger] g@[j] == clamped(
                            of3(
                                *moved,
                                self.best.genome@[j],
                                noise@[i as int]@[j],
                                self.sigma,
                            ),
                        ),
                decreases N_PARAMS - k,
            {
                let v: u32 = moved(self.best.genome[k], noise[i][k], self.sigma);
                g[k] = clamp(v);
                k = k + 1;
            }
            assert(g@ =~= want[i as int]);
            r.push(g);
            i = i + 1;
        }
        assert(knobs(r@) =~= want);
        r
    }

    /// Takes in a generation and reports its number and the best loss behind it.
    pub fn advance<A: Fn(S) -> S, C: Fn(S) -> S>(
        &mut self,
        genomes: &[Genome<u32>],
        losses: &[u64],
        settle: &A,
        cool: &C,
    ) -> (r: (usize, u64))
        requires
            old(self)@.gen < old(self)@.gens,
            genomes@.len() == losses@.len(),
            losses@.len() > 0,
            pure1(*settle),
            pure1(*cool),
        ensures
            final(self)@ == advanced(*settle, *cool, old(self)@, knobs(genomes@), losses@),
            r == (old(self).gen, final(self).best.loss),
    {
        let i: usize = first_min(losses);
        if losses[i] < self.best.loss {
            self.best = Refined { genome: genomes[i], loss: losses[i] };
        } else {
            self.sigma = settle(self.sigma);
        }
        self.sigma = cool(self.sigma);
        self.gen = self.gen + 1;
        (self.gen - 1, self.best.loss)
    }
}

// ---- a whole refinement --------------------------------------------------------------------

/// `measure` accepts every list of candidates of a generation and gives one loss for
/// each, which depend on the generation and the candidates alone.
pub open spec fn is_measure<L: Fn(usize, &[Genome<u32>]) -> Vec<u64>>(measure: L) -> bool {
    &&& forall|g: usize, c: &[Genome<u32>]| call_requires(measure, (g, c))
    &&& forall|g: usize, c: &[Genome<u32>], r: Vec<u64>| #[trigger]
        call_ensures(measure, (g, c), r) ==> r@.len() == c@.len()
    &&& forall|g: usize, c: &[Genome<u32>], d: &[Genome<u32>], r: Vec<u64>, q: Vec<u64>|
        knobs(c@) == knobs(d@) && #[trigger] call_ensures(measure, (g, c), r)
            && #[trigger] call_ensures(measure, (g, d), q) ==> r@ == q@
}

/// `measure` may give the candidates of a generation these losses.
pub open spec fn may_measure<L: Fn(usize, &[Genome<u32>]) -> Vec<u64>>(
    measure: L,
    gen: int,
    genomes: Seq<Seq<u32>>,
    losses: Seq<u64>,
) -> bool {
    exists|c: &[Genome<u32>], r: Vec<u64>|
        knobs(c@) == genomes && r@ == losses && #[trigger] call_ensures(
            measure,
            (gen as usize, c),
            r,
        )
}

/// The losses of a generation's candidates.
pub open spec fn losses_of<L: Fn(usize, &[Genome<u32>]) -> Vec<u64>>(
    measure: L,
    gen: int,
    genomes: Seq<Seq<u32>>,
) -> Seq<u64> {
    let losses = choose|losses: Seq<u64>| may_measure(measure, gen, genomes, losses);
    Seq::new(genomes.len(), |i: int| losses[i])
}

/// `draw` may give a generation this noise.
pub open spec fn may_draw<D: Fn(usize) -> Vec<Genome<u32>>>(
    draw: D,
    gen: int,
    noise: Seq<Seq<u32>>,
) -> bool {
    exists|v: Vec<Genome<u32>>| knobs(v@) == noise && #[trigger] call_ensures(draw, (gen as usize,), v)
}

/// What a refinement is made with: how a knob is moved, how the steps settle and cool,
/// and how candidates are measured.
pub struct Ways<M, A, C, L> {
    pub moved: M,
    pub settle: A,
    pub cool: C,
    pub measure: L,
}

impl<M, A, C, L> Ways<M, A, C, L> {
    /// A generation: candidates are made, measured and taken in.
    pub open spec fn generation<S>(self, noise: Seq<Seq<u32>>, s: State<S>) -> State<S> where
        M: Fn(u32, u32, S) -> u32,
        A: Fn(S) -> S,
        C: Fn(S) -> S,
        L: Fn(usize, &[Genome<u32>]) -> Vec<u64>,
     {
        let genomes = candidates(self.moved, s, noise);
        advanced(self.settle, self.cool, s, genomes, losses_of(self.measure, s.gen, genomes))
    }

    /// Where a refinement that started at `start` stands after `k` generations, each
    /// with its own noise.
    pub open spec fn searched<S>(
        self,
        noise: Seq<Seq<Seq<u32>>>,
        start: State<S>,
        k: int,
    ) -> State<S> where
        M: Fn(u32, u32, S) -> u32,
        A: Fn(S) -> S,
        C: Fn(S) -> S,
        L: Fn(usize, &[Genome<u32>]) -> Vec<u64>,

        decreases k,
    {
        if k <= 0 {
            start
        } else {
            self.generation(noise[k - 1], self.searched(noise, start, k - 1))
        }
    }
}

/// Of all lists of noise, `noise` may be what `draw` gives the first `k` generations.
pub open spec fn may_draw_all<D: Fn(usize) -> Vec<Genome<u32>>>(
    draw: D,
    noise: Seq<Seq<Seq<u32>>>,
    k: int,
) -> bool {
    &&& noise.len() == k
    &&& forall|g: int| 0 <= g < k ==> may_draw(draw, g, #[trigger] noise[g]) && noise[g].len() > 0
}

impl<M, A, C, L> Ways<M, A, C, L> {
    pub open spec fn pure<S>(self) -> bool where
        M: Fn(u32, u32, S) -> u32,
        A: Fn(S) -> S,
        C: Fn(S) -> S,
        L: Fn(usize, &[Genome<u32>]) -> Vec<u64>,
     {
        &&& pure3(self.moved)
        &&& pure1(self.settle)
        &&& pure1(self.cool)
        &&& is_measure(self.measure)
    }
}

/// Refines a guess over so many generations, of which each draws its own noise and
/// is reported with the best loss behind it. What comes out is settled by the guess
/// and by what was drawn. It is never worse than the guess, which stays where nothing
/// better was found; and knobs that lay in their range stay there.
pub fn refine<S: Copy, M, A, C, L, D, P>(
    w: &Ways<M, A, C, L>,
    guess: Genome<u32>,
    loss: u64,
    sigma: S,
    gens: usize,
    draw: &D,
    progress: &P,
) -> (r: Refined) where
    M: Fn(u32, u32, S) -> u32,
    A: Fn(S) -> S,
    C: Fn(S) -> S,
    L: Fn(usize, &[Genome<u32>]) -> Vec<u64>,
    D: Fn(usize) -> Vec<Genome<u32>>,
    P: Fn(usize, u64),

    requires
        w.pure::<S>(),
        forall|g: usize| call_requires(*draw, (g,)),
        forall|g: usize, v: Vec<Genome<u32>>| #[trigger]
            call_ensures(*draw, (g,), v) ==> v@.len() > 0,
        forall|g: usize, best: u64| call_requires(*progress, (g, best)),
    ensures
        exists|noise: Seq<Seq<Seq<u32>>>|
            #![trigger may_draw_all(*draw, noise, gens as int)]
            may_draw_all(*draw, noise, gens as int) && r@ == w.searched(
                noise,
                started(guess@, loss, sigma, gens as int),
                gens as int,
            ).best,
        r.loss <= loss,
        r.loss == loss ==> r.genome@ == guess@,
        (forall|i: int| 0 <= i < N_PARAMS ==> clamped(#[trigger] guess@[i]) == guess@[i]) ==> (
        forall|i: int| 0 <= i < N_PARAMS ==> clamped(#[trigger] r.genome@[i]) == r.genome@[i]),
{
    let ghost start = started(guess@, loss, sigma, gens as int);
    let mut search = Search::new(guess, loss, sigma, gens);
    let ghost mut noise: Seq<Seq<Seq<u32>>> = Seq::empty();
    while search.wants()
        invariant
            w.pure::<S>(),
            forall|g: usize| call_requires(*draw, (g,)),
            forall|g: usize, v: Vec<Genome<u32>>| #[trigger]
                call_ensures(*draw, (g,), v) ==> v@.len() > 0,
            forall|g: usize, best: u64| call_requires(*progress, (g, best)),
            search@.gens == gens,
            search@.gen <= gens,
            may_draw_all(*draw, noise, search@.gen),
            search@ == w.searched(noise, start, search@.gen),
        ensures
            search@.gen == gens,
        decreases gens - search@.gen,
    {
        let ghost before = search@;
        let drawn = draw(search.gen);
        let cands = search.candidates(drawn.as_slice(), &w.moved);
        let brood: &[Genome<u32>] = cands.as_slice();
        let losses = (w.measure)(search.gen, brood);
        let ghost more = noise.push(knobs(drawn@));
        proof {
            let genomes = candidates(w.moved, before, knobs(drawn@));
            assert(knobs(brood@) == genomes);
            assert(call_ensures(w.measure, (before.gen as usize, brood), losses));
            assert(may_measure(w.measure, before.gen, genomes, losses@));
            assert(losses@ =~= losses_of(w.measure, before.gen, genomes));
            assert(may_draw(*draw, before.gen, knobs(drawn@)));
            lemma_first_generations(*w, noise, more, start, before.gen);
            assert(more[before.gen] == knobs(drawn@));
        }
        let (gen, best) = search.advance(brood, losses.as_slice(), &w.settle, &w.cool);
        proof {
            noise = more;
        }
        progress(gen, best);
    }
    proof {
        law_refining_never_worsens(*w, noise, start, gens as int);
        if forall|i: int| 0 <= i < N_PARAMS ==> clamped(#[trigger] guess@[i]) == guess@[i] {
            law_refining_stays_in_range(*w, noise, start, gens as int);
        }
        assert(may_draw_all(*draw, noise, gens as int));
    }
    search.best
}

/// The first generations are settled by their own noise.
proof fn lemma_first_generations<S, M, A, C, L>(
    w: Ways<M, A, C, L>,
    noise: Seq<Seq<Seq<u32>>>,
    more: Seq<Seq<Seq<u32>>>,
    start: State<S>,
    k: int,
) where
    M: Fn(u32, u32, S) -> u32,
    A: Fn(S) -> S,
    C: Fn(S) -> S,
    L: Fn(usize, &[Genome<u32>]) -> Vec<u64>,

    requires
        0 <= k <= noise.len(),
        forall|g: int| 0 <= g < k ==> #[trigger] more[g] == noise[g],
    ensures
        w.searched(more, start, k) == w.searched(noise, start, k),
    decreases k,
{
    if k > 0 {
        lemma_first_generations(w, noise, more, start, k - 1);
        assert(more[k - 1] == noise[k - 1]);
    }
}

/// `b` is the `i`th candidate of the `g`th generation, with its own loss.
pub open spec fn is_candidate<S, M, A, C, L>(
    w: Ways<M, A, C, L>,
    noise: Seq<Seq<Seq<u32>>>,
    start: State<S>,
    g: int,
    i: int,
    b: Best,
) -> bool where
    M: Fn(u32, u32, S) -> u32,
    A: Fn(S) -> S,
    C: Fn(S) -> S,
    L: Fn(usize, &[Genome<u32>]) -> Vec<u64>,
 {
    let s = w.searched(noise, start, g);
    let genomes = candidates(w.moved, s, noise[g]);
    &&& 0 <= i < genomes.len()
    &&& b.genome == genomes[i]
    &&& b.loss == losses_of(w.measure, s.gen, genomes)[i]
}

/// Refining never makes a match worse: after `k` generations the loss is no larger
/// than the guess's, and where it is the same the guess is unchanged, as it is where
/// there was no generation. No candidate had a smaller loss, and what comes out is the
/// guess or one of them.
pub proof fn law_refining_never_worsens<S, M, A, C, L>(
    w: Ways<M, A, C, L>,
    noise: Seq<Seq<Seq<u32>>>,
    start: State<S>,
    k: int,
) where
    M: Fn(u32, u32, S) -> u32,
    A: Fn(S) -> S,
    C: Fn(S) -> S,
    L: Fn(usize, &[Genome<u32>]) -> Vec<u64>,

    requires
        0 <= k <= noise.len(),
        start.gen == 0,
        forall|g: int| 0 <= g < k ==> (#[trigger] noise[g]).len() > 0,
    ensures
        ({
            let end = w.searched(noise, start, k);
            &&& end.gen == k
            &&& end.gens == start.gens
            &&& end.best.loss <= start.best.loss
            &&& end.best.loss == start.best.loss ==> end.best == start.best
            &&& k == 0 ==> end == start
            &&& forall|g: int, i: int, b: Best|
                0 <= g < k && #[trigger] is_candidate(w, noise, start, g, i, b) ==> end.best.loss
                    <= b.loss
            &&& end.best == start.best || exists|g: int, i: int|
                0 <= g < k && #[trigger] is_candidate(w, noise, start, g, i, end.best)
        }),
    decreases k,
{
    if k > 0 {
        law_refining_never_worsens(w, noise, start, k - 1);
        let s = w.searched(noise, start, k - 1);
        let end = w.searched(noise, start, k);
        let genomes = candidates(w.moved, s, noise[k - 1]);
        let losses = losses_of(w.measure, s.gen, genomes);
        assert(noise[k - 1].len() > 0);
        lemma_min_exists(losses);
        let m = min_at(losses);
        assert forall|g: int, i: int, b: Best|
            0 <= g < k && #[trigger] is_candidate(w, noise, start, g, i, b) implies end.best.loss
            <= b.loss by {
            if g == k - 1 {
                assert(losses[i] == b.loss);
                assert(losses[m] <= losses[i]);
            }
        }
        if losses[m] < s.best.loss {
            assert(is_candidate(w, noise, start, k - 1, m, end.best));
        }
    }
}

/// A refinement keeps its knobs in their range: where those of the guess are held there,
/// those of the result are; and where those of the guess are numbers from 0 to 1 and
/// every candidate is made of numbers, those of the result are numbers from 0 to 1.
pub proof fn law_refining_stays_in_range<S, M, A, C, L>(
    w: Ways<M, A, C, L>,
    noise: Seq<Seq<Seq<u32>>>,
    start: State<S>,
    k: int,
) where
    M: Fn(u32, u32, S) -> u32,
    A: Fn(S) -> S,
    C: Fn(S) -> S,
    L: Fn(usize, &[Genome<u32>]) -> Vec<u64>,

    requires
        0 <= k <= noise.len(),
        forall|g: int| 0 <= g < k ==> (#[trigger] noise[g]).len() > 0,
        start.best.genome.len() == N_PARAMS,
        forall|i: int|
            0 <= i < N_PARAMS ==> clamped(#[trigger] start.best.genome[i]) == start.best.genome[i],
    ensures
        ({
            let end = w.searched(noise, start, k).best.genome;
            &&& end.len() == N_PARAMS
            &&& forall|i: int| 0 <= i < N_PARAMS ==> clamped(#[trigger] end[i]) == end[i]
            &&& {
                &&& forall|i: int| 0 <= i < N_PARAMS ==> is_number(#[trigger] start.best.genome[i])
                &&& forall|g: int, i: int, b: Best|
                    0 <= g < k && #[trigger] is_candidate(w, noise, start, g, i, b) ==> forall|j: int|
                        0 <= j < N_PARAMS ==> is_number(#[trigger] b.genome[j])
            } ==> forall|i: int| 0 <= i < N_PARAMS ==> in_unit(#[trigger] end[i])
        }),
    decreases k,
{
    if k > 0 {
        law_refining_stays_in_range(w, noise, start, k - 1);
        let s = w.searched(noise, start, k - 1);
        let end = w.searched(noise, start, k);
        let genomes = candidates(w.moved, s, noise[k - 1]);
        let losses = losses_of(w.measure, s.gen, genomes);
        assert(noise[k - 1].len() > 0);
        lemma_min_exists(losses);
        let m = min_at(losses);
        assert(is_candidate(
            w,
            noise,
            start,
            k - 1,
            m,
            (Best { genome: genomes[m], loss: losses[m] }),
        ));
        assert forall|i: int| 0 <= i < N_PARAMS implies clamped(#[trigger] genomes[m][i])
            == genomes[m][i] by {}
    }
}

/// A refinement is settled by what it starts from: of all runs that go on generation by
/// generation, each is after `k` of them where the others are.
pub proof fn law_refining_is_repeatable<S, M, A, C, L>(
    w: Ways<M, A, C, L>,
    noise: Seq<Seq<Seq<u32>>>,
    start: State<S>,
    run: Seq<State<S>>,
    k: int,
) where
    M: Fn(u32, u32, S) -> u32,
    A: Fn(S) -> S,
    C: Fn(S) -> S,
    L: Fn(usize, &[Genome<u32>]) -> Vec<u64>,

    requires
        0 <= k < run.len(),
        run[0] == start,
        forall|g: int| 0 <= g < k ==> run[g + 1] == w.generation(#[trigger] noise[g], run[g]),
    ensures
        run[k] == w.searched(noise, start, k),
    decreases k,
{
    if k > 0 {
        law_refining_is_repeatable(w, noise, start, run, k - 1);
        assert(run[k - 1 + 1] == w.generation(noise[k - 1], run[k - 1]));
    }
}

/// A search starts at its guess, with the first generation before it.
pub proof fn law_a_search_starts_at_its_guess<S>(genome: Seq<u32>, loss: u64, sigma: S, gens: int)
    ensures
        ({
            let s = started(genome, loss, sigma, gens);
            s.best.genome == genome && s.best.loss == loss && s.sigma == sigma && s.gen == 0 && s.gens
                == gens
        }),
{
}

/// Candidates stand round the best genome, one for every draw of noise: each of their knobs
/// is that of the best, moved by its own noise in steps of the current width and held in its
/// range. So knobs that noise leaves where they are in the range stay there, and two
/// candidates differ only where their noise does.
pub proof fn law_candidates_stand_round_the_best<S, M: Fn(u32, u32, S) -> u32>(
    moved: M,
    s: State<S>,
    noise: Seq<Seq<u32>>,
    i: int,
    j: int,
    k: int,
)
    requires
        0 <= i < noise.len(),
        0 <= j < noise.len(),
        0 <= k < 16,
    ensures
        ({
            let c = candidates(moved, s, noise);
            &&& c.len() == noise.len()
            &&& c[i].len() == 16
            &&& of3(moved, s.best.genome[k], noise[i][k], s.sigma) == s.best.genome[k] && clamped(
                s.best.genome[k],
            ) == s.best.genome[k] ==> c[i][k] == s.best.genome[k]
            &&& clamped(c[i][k]) == c[i][k]
            &&& c[i][k] == clamped(of3(moved, s.best.genome[k], noise[i][k], s.sigma))
            &&& noise[i][k] == noise[j][k] ==> c[i][k] == c[j][k]
        }),
{
}

/// Of a generation the first of the best takes over where it is better than what was best,
/// and only then. The steps then only cool; where nothing better came they settle first.
pub proof fn law_the_best_candidate_takes_over<S, A: Fn(S) -> S, C: Fn(S) -> S>(
    settle: A,
    cool: C,
    s: State<S>,
    genomes: Seq<Seq<u32>>,
    losses: Seq<u64>,
    i: int,
)
    requires
        genomes.len() == losses.len(),
        0 <= i < losses.len(),
    ensures
        ({
            let t = advanced(settle, cool, s, genomes, losses);
            &&& t.gen == s.gen + 1
            &&& t.gens == s.gens
            &&& t.best.loss <= losses[i]
            &&& t.best.loss <= s.best.loss
            &&& losses[i] < s.best.loss ==> t.sigma == of1(cool, s.sigma)
            &&& {
                &&& losses[i] < s.best.loss
                &&& forall|j: int| 0 <= j < losses.len() ==> losses[i] <= #[trigger] losses[j]
                &&& forall|j: int| 0 <= j < i ==> losses[i] < #[trigger] losses[j]
            } ==> t.best.genome == genomes[i] && t.best.loss == losses[i]
            &&& (forall|j: int| 0 <= j < losses.len() ==> s.best.loss <= #[trigger] losses[j]) ==> {
                &&& t.best == s.best
                &&& t.sigma == of1(cool, of1(settle, s.sigma))
            }
        }),
{
    lemma_min_exists(losses);
    let m = min_at(losses);
    assert(losses[m] <= losses[i]);
}

} // verus!
