use vstd::prelude::*;

use crate::catalog::{catalog_values, TilePattern};
use crate::grid::TileGrid;
use crate::WfcError;

verus! {

// One collapse attempt either yields a fully collapsed assignment of
// pattern identities, or contradicts. An engine keeps count of the attempts
// it has served and of how many succeeded, and remembers what its latest
// attempt reported; the orchestrator below is verified against that
// interface alone, so it promises what holds of every outcome, whichever
// way the engine decides each attempt.

/// A source of collapse attempts over a fixed output size and catalog.
pub trait CollapseEngine: Sized {
    /// The output width, in cells.
    spec fn out_w(&self) -> int;

    /// The output height, in cells.
    spec fn out_h(&self) -> int;

    /// The exclusive upper bound on the pattern identities an attempt may
    /// report: the catalog's pattern count.
    spec fn pattern_limit(&self) -> int;

    /// How many attempts this engine has served.
    spec fn attempts(&self) -> nat;

    /// How many of them completed without contradiction.
    spec fn successes(&self) -> nat;

    /// What the latest attempt reported: a row-major identity per output
    /// cell, or nothing on contradiction.
    spec fn last_ids(&self) -> Option<Seq<u32>>;

    fn width(&self) -> (r: u32)
        ensures
            r as int == self.out_w(),
    ;

    fn height(&self) -> (r: u32)
        ensures
            r as int == self.out_h(),
    ;

    /// Run one collapse attempt.
    fn attempt(&mut self) -> (r: Option<Vec<u32>>)
        ensures
            final(self).out_w() == old(self).out_w(),
            final(self).out_h() == old(self).out_h(),
            final(self).pattern_limit() == old(self).pattern_limit(),
            final(self).attempts() == old(self).attempts() + 1,
            match r {
                Some(ids) => {
                    &&& final(self).successes() == old(self).successes() + 1
                    &&& final(self).last_ids() == Some(ids@)
                    &&& ids@.len() == old(self).out_w() * old(self).out_h()
                    &&& forall|j: int|
                        0 <= j < ids@.len() ==> (#[trigger] ids@[j] as int) < old(
                            self,
                        ).pattern_limit()
                },
                None => {
                    &&& final(self).successes() == old(self).successes()
                    &&& final(self).last_ids() is None
                },
            },
    ;
}

// The engine's generator type is opaque to this library.

#[verifier::external_type_specification]
#[verifier::external_body]
pub struct ExStdRng(rand::rngs::StdRng);

/// Relies on rand's StdRng and SeedableRng::seed_from_u64, documented to
/// derive the generator state from the seed deterministically.
#[verifier::external_body]
fn rng_seeded(seed: u64) -> rand::rngs::StdRng {
    <rand::rngs::StdRng as rand::SeedableRng>::seed_from_u64(seed)
}

/// Relies on wfc's RunOwn (with edge-to-edge wrapping in both axes and no
/// forbid strategy), its collapse, and WaveCell::chosen_pattern_id: one
/// attempt either contradicts, or collapses every cell of a
/// `width` by `height` wave to a single pattern identity drawn from the
/// catalog's pattern table; the identities are reported row-major. Which of
/// the two happens, and which identities are reported, also depends on the
/// walk order of the engine's internal hash maps, so nothing ties the
/// outcome to the arguments; only these shape facts hold of every outcome.
#[verifier::external_body]
fn wfc_collapse_attempt(
    cat: &wfc::overlapping::OverlappingPatterns<u32>,
    width: u32,
    height: u32,
    rng: &mut rand::rngs::StdRng,
) -> (r: Option<Vec<u32>>)
    requires
        1 <= width <= 0x80000000,
        1 <= height <= 0x80000000,
        width * height <= usize::MAX,
    ensures
        match r {
            Some(ids) => {
                &&& ids@.len() == width * height
                &&& forall|j: int|
                    0 <= j < ids@.len() ==> (#[trigger] ids@[j] as int) < catalog_values(*cat).len()
            },
            None => true,
        },
{
    let stats = cat.global_stats();
    let size = coord_2d::Size::new(width, height);
    let mut run = wfc::RunOwn::new_wrap_forbid(size, &stats, wfc::wrap::WrapXY, wfc::ForbidNothing, rng);
    match run.collapse(rng) {
        Err(wfc::PropagateError::Contradiction) => None,
        Ok(()) => {
            let wave = run.into_wave();
            wave.grid().iter().map(|c| c.chosen_pattern_id().ok()).collect::<Option<Vec<u32>>>()
        },
    }
}

/// The real engine: collapse attempts are run by the external
/// constraint-propagation engine over the catalog's statistics, wrapping
/// edge-to-edge in both axes, with no forbid strategy, drawing randomness
/// from a seeded generator. Attempts consume the generator sequentially: a
/// later attempt continues the stream where the previous one left it.
pub struct WfcEngine<'a> {
    pattern: &'a TilePattern,
    width: u32,
    height: u32,
    rng: rand::rngs::StdRng,
    served: Ghost<nat>,
    completed: Ghost<nat>,
    latest: Ghost<Option<Seq<u32>>>,
}

impl<'a> WfcEngine<'a> {
    /// Build an engine for the given catalog, output size and seed.
    pub fn new(pattern: &'a TilePattern, width: u32, height: u32, seed: u64) -> (r: WfcEngine<'a>)
        requires
            1 <= width <= 0x80000000,
            1 <= height <= 0x80000000,
            width * height <= usize::MAX,
        ensures
            r.out_w() == width,
            r.out_h() == height,
            r.pattern_limit() == pattern.pattern_count(),
            r.attempts() == 0,
            r.successes() == 0,
    {
        WfcEngine {
            pattern,
            width,
            height,
            rng: rng_seeded(seed),
            served: Ghost(0),
            completed: Ghost(0),
            latest: Ghost(None),
        }
    }
}

impl<'a> CollapseEngine for WfcEngine<'a> {
    closed spec fn out_w(&self) -> int {
        self.width as int
    }

    closed spec fn out_h(&self) -> int {
        self.height as int
    }

    closed spec fn pattern_limit(&self) -> int {
        self.pattern.pattern_count()
    }

    closed spec fn attempts(&self) -> nat {
        self.served@
    }

    closed spec fn successes(&self) -> nat {
        self.completed@
    }

    closed spec fn last_ids(&self) -> Option<Seq<u32>> {
        self.latest@
    }

    fn width(&self) -> (r: u32) {
        self.width
    }

    fn height(&self) -> (r: u32) {
        self.height
    }

    fn attempt(&mut self) -> (r: Option<Vec<u32>>) {
        let dims_ok = 1 <= self.width && self.width <= 0x80000000 && 1 <= self.height
            && self.height <= 0x80000000;
        let mut fits = false;
        if dims_ok {
            proof {
                assert((self.width as int) * (self.height as int) <= u64::MAX) by (nonlinear_arith)
                    requires
                        self.width <= u32::MAX,
                        self.height <= u32::MAX,
                ;
            }
            let wide: u64 = (self.width as u64) * (self.height as u64);
            fits = wide <= (usize::MAX as u64);
        }
        let r = if dims_ok && fits {
            wfc_collapse_attempt(&self.pattern.patterns, self.width, self.height, &mut self.rng)
        } else {
            None
        };
        self.served = Ghost(self.served@ + 1);
        match &r {
            Some(ids) => {
                self.completed = Ghost(self.completed@ + 1);
                self.latest = Ghost(Some(ids@));
            },
            None => {
                self.latest = Ghost(None);
            },
        }
        r
    }
}

/// A scripted engine: attempt number `k` reports what entry `k` of the
/// script holds, as long as the script lasts; after that, and for any entry
/// that does not fit the configured size and identity bound, it reports a
/// contradiction. Its attempt counter makes the orchestrator's retry
/// behaviour observable without the external engine.
pub struct ScriptedEngine {
    script: Vec<Option<Vec<u32>>>,
    pos: usize,
    width: u32,
    height: u32,
    limit: usize,
    overrun: Ghost<nat>,
    completed: Ghost<nat>,
    latest: Ghost<Option<Seq<u32>>>,
}

impl ScriptedEngine {
    /// Whether a scripted success fits the configured size and bound.
    pub open spec fn entry_fits(&self, v: Vec<u32>) -> bool {
        &&& v@.len() == self.out_w() * self.out_h()
        &&& forall|j: int| 0 <= j < v@.len() ==> (#[trigger] v@[j] as int) < self.pattern_limit()
    }

    pub closed spec fn script_view(&self) -> Seq<Option<Vec<u32>>> {
        self.script@
    }

    /// How many attempts have been answered from the script.
    pub closed spec fn spec_pos(&self) -> int {
        self.pos as int
    }

    pub fn new(script: Vec<Option<Vec<u32>>>, width: u32, height: u32, limit: usize) -> (r:
        ScriptedEngine)
        ensures
            r.script_view() == script@,
            r.spec_pos() == 0,
            r.out_w() == width,
            r.out_h() == height,
            r.pattern_limit() == limit,
            r.attempts() == 0,
            r.successes() == 0,
    {
        ScriptedEngine {
            script,
            pos: 0,
            width,
            height,
            limit,
            overrun: Ghost(0),
            completed: Ghost(0),
            latest: Ghost(None),
        }
    }

    /// How many attempts this engine has answered from its script.
    pub fn attempts_made(&self) -> (r: usize)
        ensures
            r == self.spec_pos(),
    {
        self.pos
    }
}

impl CollapseEngine for ScriptedEngine {
    closed spec fn out_w(&self) -> int {
        self.width as int
    }

    closed spec fn out_h(&self) -> int {
        self.height as int
    }

    closed spec fn pattern_limit(&self) -> int {
        self.limit as int
    }

    closed spec fn attempts(&self) -> nat {
        (self.pos + self.overrun@) as nat
    }

    closed spec fn successes(&self) -> nat {
        self.completed@
    }

    closed spec fn last_ids(&self) -> Option<Seq<u32>> {
        self.latest@
    }

    fn width(&self) -> (r: u32) {
        self.width
    }

    fn height(&self) -> (r: u32) {
        self.height
    }

    fn attempt(&mut self) -> (r: Option<Vec<u32>>) {
        let r: Option<Vec<u32>> = if self.pos < self.script.len() {
            let entry = match &self.script[self.pos] {
                Some(v) => Some(copy_ids(v)),
                None => None,
            };
            self.pos = self.pos + 1;
            match entry {
                None => None,
                Some(ids) => if ids_fit(&ids, self.width, self.height, self.limit) {
                    Some(ids)
                } else {
                    None
                },
            }
        } else {
            self.overrun = Ghost(self.overrun@ + 1);
            None
        };
        match &r {
            Some(ids) => {
                self.completed = Ghost(self.completed@ + 1);
                self.latest = Ghost(Some(ids@));
            },
            None => {
                self.latest = Ghost(None);
            },
        }
        r
    }
}

/// Whether a reported assignment has one identity per output cell, all of
/// them below the identity bound.
fn ids_fit(ids: &Vec<u32>, width: u32, height: u32, limit: usize) -> (r: bool)
    ensures
        r == (ids@.len() == width * height && forall|j: int|
            0 <= j < ids@.len() ==> (#[trigger] ids@[j] as int) < limit),
{
    proof {
        assert((width as int) * (height as int) <= u64::MAX) by (nonlinear_arith)
            requires
                width <= u32::MAX,
                height <= u32::MAX,
        ;
    }
    let wide: u64 = (width as u64) * (height as u64);
    if (ids.len() as u64) != wide {
        return false;
    }
    let mut j: usize = 0;
    while j < ids.len()
        invariant
            j <= ids@.len(),
            forall|a: int| 0 <= a < j ==> (#[trigger] ids@[a] as int) < limit,
        decreases ids@.len() - j,
    {
        if (ids[j] as usize) >= limit {
            return false;
        }
        j += 1;
    }
    true
}

/// Copies a vector of pattern identities.
fn copy_ids(v: &Vec<u32>) -> (r: Vec<u32>)
    ensures
        r@ == v@,
{
    let mut r: Vec<u32> = Vec::new();
    let mut i: usize = 0;
    while i < v.len()
        invariant
            i <= v@.len(),
            r@ == v@.take(i as int),
        decreases v@.len() - i,
    {
        r.push(v[i]);
        proof {
            assert(r@ =~= v@.take(i as int + 1));
        }
        i += 1;
    }
    proof {
        assert(v@.take(v@.len() as int) =~= v@);
    }
    r
}

impl TilePattern {
    /// Attempt collapse up to `retry_times` times and translate the first
    /// success into a concrete tile grid: each output cell receives the
    /// representative tile value of the single pattern identity the engine
    /// left there — so every output cell holds a value of the sample. After
    /// the first success no further attempt is made; if every attempt
    /// contradicts, the retry budget is exhausted — exactly `retry_times`
    /// attempts, none successful — and the run fails with
    /// `PropagationFailed` carrying that budget.
    #[verifier::loop_isolation(false)]
    pub fn run_collapse<E: CollapseEngine>(&self, engine: &mut E, retry_times: usize) -> (r: Result<
        TileGrid,
        WfcError,
    >)
        requires
            self.wf(),
            retry_times >= 1,
            old(engine).pattern_limit() == self.pattern_count(),
            old(engine).out_w() >= 1,
            old(engine).out_h() >= 1,
            old(engine).out_w() * old(engine).out_h() <= usize::MAX,
        ensures
            final(engine).out_w() == old(engine).out_w(),
            final(engine).out_h() == old(engine).out_h(),
            final(engine).pattern_limit() == old(engine).pattern_limit(),
            final(engine).attempts() <= old(engine).attempts() + retry_times,
            match r {
                Ok(g) => {
                    &&& final(engine).successes() == old(engine).successes() + 1
                    &&& old(engine).attempts() < final(engine).attempts()
                    &&& final(engine).last_ids() is Some
                    &&& ({
                        let ids = final(engine).last_ids().unwrap();
                        &&& ids.len() == old(engine).out_w() * old(engine).out_h()
                        &&& forall|j: int|
                            0 <= j < ids.len() ==> (#[trigger] ids[j] as int) < self.pattern_count()
                        &&& g.wf()
                        &&& g.w() == old(engine).out_w()
                        &&& g.h() == old(engine).out_h()
                        &&& g.cells().len() == ids.len()
                        &&& forall|i: int|
                            0 <= i < ids.len() ==> #[trigger] g.cells()[i] == self.values()[ids[i] as int]
                    })
                    &&& forall|i: int|
                        0 <= i < g.cells().len() ==> self.grid.cells().contains(
                            #[trigger] g.cells()[i],
                        )
                },
                Err(e) => {
                    &&& e == WfcError::PropagationFailed(retry_times)
                    &&& final(engine).attempts() == old(engine).attempts() + retry_times
                    &&& final(engine).successes() == old(engine).successes()
                    &&& final(engine).last_ids() is None
                },
            },
    {
        let ghost e0 = *engine;
        let mut attempt_no: usize = 0;
        while attempt_no < retry_times
            invariant
                attempt_no <= retry_times,
                engine.out_w() == e0.out_w(),
                engine.out_h() == e0.out_h(),
                engine.pattern_limit() == e0.pattern_limit(),
                engine.attempts() == e0.attempts() + attempt_no,
                engine.successes() == e0.successes(),
                attempt_no > 0 ==> engine.last_ids() is None,
            decreases retry_times - attempt_no,
        {
            let res = engine.attempt();
            match res {
                Some(ids) => {
                    let w = engine.width();
                    let h = engine.height();
                    let mut cells: Vec<u32> = Vec::new();
                    let mut i: usize = 0;
                    while i < ids.len()
                        invariant
                            i <= ids@.len(),
                            cells@.len() == i,
                            engine.last_ids() == Some(ids@),
                            forall|j: int|
                                0 <= j < ids@.len() ==> (#[trigger] ids@[j] as int)
                                    < self.pattern_count(),
                            forall|j: int|
                                0 <= j < i ==> #[trigger] cells@[j] == self.values()[ids@[j] as int],
                        decreases ids@.len() - i,
                    {
                        cells.push(self.value_of(ids[i]));
                        i += 1;
                    }
                    let g = TileGrid::from_vec(cells, w, h);
                    proof {
                        assert forall|c: int|
                            0 <= c < g.cells().len() implies self.grid.cells().contains(
                            #[trigger] g.cells()[c],
                        ) by {
                            assert(self.grid.cells().contains(self.values()[ids@[c] as int]));
                        }
                    }
                    return Ok(g);
                },
                None => {
                    attempt_no += 1;
                },
            }
        }
        Err(WfcError::PropagationFailed(retry_times))
    }
}

} // verus!
