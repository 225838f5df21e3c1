//! The timer-gated rule engine and the lifecycle step that applies its
//! effects to the live population.
//!
//! The engine is invoked once per host frame with the elapsed time and the
//! current live-cell set. An internal repeating tick timer gates the work:
//! only on a firing tick does the engine build a fresh neighbor-count grid
//! and evaluate the rule table (a live cell survives with exactly 2 or 3
//! live neighbors; a dead cell with exactly 3 live neighbors is born). The
//! effects come back as explicit death-notification and birth-request
//! lists; a decoupled lifecycle step applies them afterwards, so the grid
//! snapshot stays stable during evaluation.

use vstd::prelude::*;

use crate::cell_matrix::CellMatrix;
use crate::cell_matrix::CellType;
use crate::cell_matrix::GridError;
use crate::cell_matrix::class_seq;
use crate::cell_matrix::classify;
use crate::cell_matrix::dead_of;
use crate::cell_matrix::in_bounds;
use crate::cell_matrix::lemma_dead_of_entries;
use crate::cell_matrix::lemma_enumerations_empty;
use crate::cell_matrix::lemma_live_of_entries;
use crate::cell_matrix::lemma_lin_pos_of;
use crate::cell_matrix::lemma_live_of_single;
use crate::cell_matrix::lemma_pos_of_lin;
use crate::cell_matrix::lin;
use crate::cell_matrix::live_nbrs;
use crate::cell_matrix::live_of;
use crate::cell_matrix::occupant;
use crate::cell_matrix::occupies;
use crate::cell_matrix::pos_of;
use crate::cell_matrix::scan_error;
use crate::CellId;
use crate::GolConfig;
use crate::Position;

verus! {

/// Identities the rule table dooms among the live enumeration: those whose
/// live-neighbor count is neither 2 nor 3 (underpopulation below 2,
/// overpopulation above 3), in enumeration order.
pub open spec fn deaths_of(lv: Seq<(CellId, u32)>) -> Seq<CellId>
    decreases lv.len(),
{
    if lv.len() == 0 {
        Seq::empty()
    } else {
        deaths_of(lv.drop_last()) + (if lv.last().1 == 2 || lv.last().1 == 3 {
            Seq::empty()
        } else {
            seq![lv.last().0]
        })
    }
}

/// Positions the rule table brings to life among the dead enumeration:
/// those with exactly 3 live neighbors, in enumeration order.
pub open spec fn births_of(dd: Seq<(Position, u32)>) -> Seq<Position>
    decreases dd.len(),
{
    if dd.len() == 0 {
        Seq::empty()
    } else {
        births_of(dd.drop_last()) + (if dd.last().1 == 3 {
            seq![dd.last().0]
        } else {
            Seq::empty()
        })
    }
}

/// What one invocation of the rule engine emits. On a non-firing
/// invocation `fired` is false and both lists are empty; on a firing tick
/// the lists carry one death notification per doomed identity and one
/// birth request per birth position.
pub struct TickEffects {
    pub fired: bool,
    pub deaths: Vec<CellId>,
    pub births: Vec<Position>,
}

/// The rule engine's state: a repeating tick timer. Times are integer
/// counts of milliseconds; the timer fires whenever the accumulated
/// elapsed time reaches its period and keeps the remainder.
pub struct GolCore {
    period_ms: u64,
    elapsed_ms: u64,
}

impl GolCore {
    pub closed spec fn spec_period(self) -> u64 {
        self.period_ms
    }

    pub closed spec fn spec_elapsed(self) -> u64 {
        self.elapsed_ms
    }

    /// A positive period, with less than one full period accumulated.
    pub open spec fn wf(self) -> bool {
        1 <= self.spec_period() && self.spec_elapsed() < self.spec_period()
    }

    pub fn new(period_ms: u64) -> (r: GolCore)
        requires
            1 <= period_ms,
        ensures
            r.wf(),
            r.spec_period() == period_ms,
            r.spec_elapsed() == 0,
    {
        GolCore { period_ms, elapsed_ms: 0 }
    }

    /// Advances the tick timer by `delta_ms` and, when it fires, evaluates
    /// one tick of the rule table against a fresh neighbor-count grid built
    /// from the current live population.
    ///
    /// On a non-firing invocation the call only accumulates time and emits
    /// nothing. On a firing tick with a population that honors the caller
    /// contract, the death list holds exactly the identities of live cells
    /// whose count is outside {2, 3} and the birth list exactly the dead
    /// positions with count 3, each in row-major grid order; a population
    /// that breaks the contract is rejected with the grid's first
    /// violation, and no effects are emitted for that tick.
    pub fn apply_rules(
        &mut self,
        config: &GolConfig,
        delta_ms: u64,
        cells: &Vec<(CellId, Position)>,
    ) -> (r: Result<TickEffects, GridError>)
        requires
            old(self).wf(),
            config.wf(),
            delta_ms <= u64::MAX - old(self).spec_period(),
        ensures
            final(self).wf(),
            final(self).spec_period() == old(self).spec_period(),
            ({
                let fired = old(self).spec_elapsed() + delta_ms >= old(self).spec_period();
                let grid = class_seq(cells@, config.width, config.height);
                &&& fired ==> final(self).spec_elapsed() == (old(self).spec_elapsed() + delta_ms)
                    % (old(self).spec_period() as int)
                &&& !fired ==> final(self).spec_elapsed() == old(self).spec_elapsed() + delta_ms
                &&& !fired ==> (r matches Ok(eff) && eff.fired == false && eff.deaths@
                    == Seq::<CellId>::empty() && eff.births@ == Seq::<Position>::empty())
                &&& fired && scan_error(cells@, config.width, config.height) is Some ==> (r
                    matches Err(e) && Some(e) == scan_error(cells@, config.width, config.height))
                &&& fired && scan_error(cells@, config.width, config.height) is None ==> (r
                    matches Ok(eff) && eff.fired == true && eff.deaths@ == deaths_of(live_of(grid))
                    && eff.births@ == births_of(dead_of(grid, config.width)))
            }),
    {
        let elapsed = self.elapsed_ms + delta_ms;
        if elapsed < self.period_ms {
            self.elapsed_ms = elapsed;
            return Ok(TickEffects { fired: false, deaths: Vec::new(), births: Vec::new() });
        }
        self.elapsed_ms = elapsed % self.period_ms;
        let grid = match CellMatrix::new(config.width, config.height, cells) {
            Ok(g) => g,
            Err(e) => {
                return Err(e);
            },
        };
        let lv = grid.live_cells();
        let mut deaths: Vec<CellId> = Vec::new();
        for i in 0..lv.len()
            invariant
                deaths@ == deaths_of(lv@.subrange(0, i as int)),
        {
            let (id, nc) = lv[i];
            if !(nc == 2 || nc == 3) {
                deaths.push(id);
            }
            proof {
                assert(lv@.subrange(0, i + 1).drop_last() =~= lv@.subrange(0, i as int));
                assert(lv@.subrange(0, i + 1).last() == lv@[i as int]);
            }
        }
        proof {
            assert(lv@.subrange(0, lv@.len() as int) =~= lv@);
        }
        let dd = grid.dead_cells();
        let mut births: Vec<Position> = Vec::new();
        for i in 0..dd.len()
            invariant
                births@ == births_of(dd@.subrange(0, i as int)),
        {
            let (p, nc) = dd[i];
            if nc == 3 {
                births.push(p);
            }
            proof {
                assert(dd@.subrange(0, i + 1).drop_last() =~= dd@.subrange(0, i as int));
                assert(dd@.subrange(0, i + 1).last() == dd@[i as int]);
            }
        }
        proof {
            assert(dd@.subrange(0, dd@.len() as int) =~= dd@);
        }
        Ok(TickEffects { fired: true, deaths, births })
    }
}

impl Default for GolCore {
    /// The default cadence: the rule is evaluated every 500 ms, half a
    /// simulated time unit of one second.
    fn default() -> (r: Self)
        ensures
            r.wf(),
            r.spec_period() == 500,
            r.spec_elapsed() == 0,
    {
        GolCore { period_ms: 500, elapsed_ms: 0 }
    }
}

/// The survivors of `pop` once every identity listed in `deaths` is
/// removed, in their original order.
pub open spec fn surviving(pop: Seq<(CellId, Position)>, deaths: Seq<CellId>) -> Seq<
    (CellId, Position),
>
    decreases pop.len(),
{
    if pop.len() == 0 {
        Seq::empty()
    } else {
        surviving(pop.drop_last(), deaths) + (if deaths.contains(pop.last().0) {
            Seq::empty()
        } else {
            seq![pop.last()]
        })
    }
}

/// Whether `ids` lists the identity `id`.
fn contains_id(ids: &Vec<CellId>, id: CellId) -> (b: bool)
    ensures
        b == ids@.contains(id),
{
    for i in 0..ids.len()
        invariant
            forall|j: int| 0 <= j < i ==> ids@[j] != id,
    {
        if ids[i] == id {
            return true;
        }
    }
    false
}

/// The lifecycle remover: drops every cell named in `deaths` from the live
/// population, keeping the others in order. A listed identity that is
/// absent is a no-op, not an error, so redundant death notifications from
/// several subsystems are tolerated.
pub fn cell_death(population: &mut Vec<(CellId, Position)>, deaths: &Vec<CellId>)
    ensures
        final(population)@ == surviving(old(population)@, deaths@),
{
    let mut kept: Vec<(CellId, Position)> = Vec::new();
    let n = population.len();
    for i in 0..n
        invariant
            population@ == old(population)@,
            n == population@.len(),
            kept@ == surviving(population@.subrange(0, i as int), deaths@),
    {
        let (id, p) = population[i];
        if !contains_id(deaths, id) {
            kept.push((id, p));
        }
        proof {
            assert(population@.subrange(0, i + 1).drop_last() =~= population@.subrange(
                0,
                i as int,
            ));
            assert(population@.subrange(0, i + 1).last() == population@[i as int]);
        }
    }
    proof {
        assert(population@.subrange(0, population@.len() as int) =~= population@);
    }
    *population = kept;
}

/// Applies one tick's birth requests: appends a new live cell at each
/// requested position. Identity assignment belongs to the surrounding
/// population store; this models it by tagging the newcomers with
/// consecutive fresh handles starting at `next_id`.
pub fn apply_births(population: &mut Vec<(CellId, Position)>, births: &Vec<Position>, next_id: u64)
    requires
        next_id + births@.len() <= u64::MAX,
    ensures
        final(population)@ == old(population)@ + Seq::new(
            births@.len(),
            |k: int| (CellId { id: (next_id + k) as u64 }, births@[k]),
        ),
{
    let n = births.len();
    for i in 0..n
        invariant
            n == births@.len(),
            next_id + births@.len() <= u64::MAX,
            population@ == old(population)@ + Seq::new(
                i as nat,
                |k: int| (CellId { id: (next_id + k) as u64 }, births@[k]),
            ),
    {
        population.push((CellId { id: next_id + (i as u64) }, births[i]));
        proof {
            assert(population@ =~= old(population)@ + Seq::new(
                (i + 1) as nat,
                |k: int| (CellId { id: (next_id + k) as u64 }, births@[k]),
            ));
        }
    }
}

/// A live enumeration in which every count is 2 or 3 dooms nobody.
pub proof fn lemma_deaths_none(lv: Seq<(CellId, u32)>)
    requires
        forall|k: int| 0 <= k < lv.len() ==> (#[trigger] lv[k]).1 == 2 || lv[k].1 == 3,
    ensures
        deaths_of(lv) == Seq::<CellId>::empty(),
    decreases lv.len(),
{
    if lv.len() > 0 {
        assert(forall|k: int| 0 <= k < lv.len() - 1 ==> lv.drop_last()[k] == lv[k]);
        lemma_deaths_none(lv.drop_last());
        assert(deaths_of(lv) =~= Seq::<CellId>::empty());
    }
}

/// A dead enumeration in which no count is exactly 3 births nobody.
pub proof fn lemma_births_none(dd: Seq<(Position, u32)>)
    requires
        forall|k: int| 0 <= k < dd.len() ==> (#[trigger] dd[k]).1 != 3,
    ensures
        births_of(dd) == Seq::<Position>::empty(),
    decreases dd.len(),
{
    if dd.len() > 0 {
        assert(forall|k: int| 0 <= k < dd.len() - 1 ==> dd.drop_last()[k] == dd[k]);
        lemma_births_none(dd.drop_last());
        assert(births_of(dd) =~= Seq::<Position>::empty());
    }
}

/// Empty population: a firing tick with no live cells emits no death
/// notifications and no birth requests, whatever the grid size.
pub proof fn lemma_empty_population(w: u32, h: u32)
    ensures
        deaths_of(live_of(class_seq(Seq::empty(), w, h))) == Seq::<CellId>::empty(),
        births_of(dead_of(class_seq(Seq::empty(), w, h), w)) == Seq::<Position>::empty(),
{
    let s = Seq::<(CellId, Position)>::empty();
    let g = class_seq(s, w, h);
    assert forall|i: int| 0 <= i < g.len() implies !((#[trigger] g[i]) is Live) && !(g[i] is Dead) by {
        assert(!occupies(s, pos_of(i, w)));
        assert(live_nbrs(s, pos_of(i, w)) == 0);
    }
    lemma_enumerations_empty(g, w);
}

/// Isolated cell: a single live cell with no live neighbors is doomed by
/// underpopulation. A firing tick emits exactly its death notification and
/// no birth requests.
pub proof fn lemma_isolated_cell(id: CellId, p: Position, w: u32, h: u32)
    requires
        1 <= w,
        1 <= h,
        w * h <= i32::MAX,
        in_bounds(p, w, h),
    ensures
        deaths_of(live_of(class_seq(seq![(id, p)], w, h))) == seq![id],
        births_of(dead_of(class_seq(seq![(id, p)], w, h), w)) == Seq::<Position>::empty(),
{
    let s = seq![(id, p)];
    assert(s[0] == (id, p));
    let g = class_seq(s, w, h);
    lemma_lin_pos_of(p, w, h);
    assert(occupies(s, p));
    assert(occupant(s, p) == id);
    assert(live_nbrs(s, p) == 0);
    assert(g[lin(p, w)] == CellType::Live(id, 0));
    assert forall|i: int| 0 <= i < g.len() && i != lin(p, w) implies !((#[trigger] g[i]) is Live) by {
        lemma_pos_of_lin(i, w, h);
        if occupies(s, pos_of(i, w)) {
            assert(s[choose|j: int| 0 <= j < s.len() && s[j].1 == pos_of(i, w)] == (id, p));
            assert(pos_of(i, w) == p);
            assert(lin(pos_of(i, w), w) == i);
        }
    }
    lemma_live_of_single(g, lin(p, w), id, 0);
    assert(live_of(g) == seq![(id, 0u32)]);
    assert(seq![(id, 0u32)].drop_last() =~= Seq::<(CellId, u32)>::empty());
    assert(seq![(id, 0u32)].last() == (id, 0u32));
    assert(deaths_of(Seq::<(CellId, u32)>::empty()) == Seq::<CellId>::empty());
    assert(deaths_of(seq![(id, 0u32)]) =~= Seq::<CellId>::empty() + seq![id]);
    assert(deaths_of(live_of(g)) =~= seq![id]);
    lemma_dead_of_entries(g, w);
    let dd = dead_of(g, w);
    assert forall|k: int| 0 <= k < dd.len() implies (#[trigger] dd[k]).1 != 3 by {
        let i = choose|i: int| 0 <= i < g.len() && g[i] == CellType::Dead(dd[k].1);
        let q = pos_of(i, w);
        assert(g[i] == classify(s, q));
        assert(live_nbrs(s, q) <= 1);
    }
    lemma_births_none(dd);
}

/// Still life: the 2 by 2 block at (1,1),(1,2),(2,1),(2,2) on any grid of
/// at least 4 by 4 is stable. Each live cell has exactly 3 live neighbors
/// and every dead cell at most 2, so a firing tick emits no death
/// notifications and no birth requests, and the population is unchanged.
/// The neighbor counts the 2 by 2 block determines: 3 for each of its own
/// cells, at most 2 anywhere else.
#[verifier::rlimit(100)]
proof fn lemma_block_nbrs(s: Seq<(CellId, Position)>, q: Position)
    requires
        s.len() == 4,
        (s[0].1 == Position { x: 1, y: 1 }),
        (s[1].1 == Position { x: 1, y: 2 }),
        (s[2].1 == Position { x: 2, y: 1 }),
        (s[3].1 == Position { x: 2, y: 2 }),
    ensures
        (occupies(s, q) ==> live_nbrs(s, q) == 3),
        (!occupies(s, q) ==> live_nbrs(s, q) <= 2),
{
    assert(forall|i: int|
        0 <= i < s.len() ==> ((#[trigger] s[i]).1 == Position { x: 1, y: 1 } || s[i].1
            == Position { x: 1, y: 2 } || s[i].1 == Position { x: 2, y: 1 } || s[i].1
            == Position { x: 2, y: 2 }));
}

#[verifier::rlimit(100)]
pub proof fn lemma_block_still_life(a: CellId, b: CellId, c: CellId, d: CellId, w: u32, h: u32)
    requires
        4 <= w,
        4 <= h,
        w * h <= i32::MAX,
    ensures
        ({
            let s = seq![
                (a, Position { x: 1, y: 1 }),
                (b, Position { x: 1, y: 2 }),
                (c, Position { x: 2, y: 1 }),
                (d, Position { x: 2, y: 2 }),
            ];
            &&& deaths_of(live_of(class_seq(s, w, h))) == Seq::<CellId>::empty()
            &&& births_of(dead_of(class_seq(s, w, h), w)) == Seq::<Position>::empty()
        }),
{
    let s = seq![
        (a, Position { x: 1, y: 1 }),
        (b, Position { x: 1, y: 2 }),
        (c, Position { x: 2, y: 1 }),
        (d, Position { x: 2, y: 2 }),
    ];
    assert(s[0] == (a, Position { x: 1, y: 1 }));
    assert(s[1] == (b, Position { x: 1, y: 2 }));
    assert(s[2] == (c, Position { x: 2, y: 1 }));
    assert(s[3] == (d, Position { x: 2, y: 2 }));
    let g = class_seq(s, w, h);
    lemma_live_of_entries(g);
    assert forall|k: int|
        0 <= k < live_of(g).len() implies (#[trigger] live_of(g)[k]).1 == 2 || live_of(g)[k].1
        == 3 by {
        let i = choose|i: int|
            0 <= i < g.len() && g[i] == CellType::Live(live_of(g)[k].0, live_of(g)[k].1);
        let q = pos_of(i, w);
        assert(g[i] == classify(s, q));
        assert(occupies(s, q));
        lemma_block_nbrs(s, q);
    }
    lemma_deaths_none(live_of(g));
    lemma_dead_of_entries(g, w);
    let dd = dead_of(g, w);
    assert forall|k: int| 0 <= k < dd.len() implies (#[trigger] dd[k]).1 != 3 by {
        let i = choose|i: int| 0 <= i < g.len() && g[i] == CellType::Dead(dd[k].1);
        let q = pos_of(i, w);
        assert(g[i] == classify(s, q));
        assert(!occupies(s, q));
        lemma_block_nbrs(s, q);
    }
    lemma_births_none(dd);
}

/// Oscillator: the horizontal blinker (2,1),(3,1),(4,1) is classified so
/// that the rule table dooms both end cells (one live neighbor each),
/// keeps the center (two), and births exactly (3,0) and (3,2) (three live
/// neighbors each): one firing tick turns the horizontal triple into the
/// vertical triple through the center, and a second tick turns it back.
#[verifier::rlimit(100)]
pub proof fn lemma_blinker_step(a: CellId, b: CellId, c: CellId)
    ensures
        ({
            let s = seq![
                (a, Position { x: 2, y: 1 }),
                (b, Position { x: 3, y: 1 }),
                (c, Position { x: 4, y: 1 }),
            ];
            &&& (classify(s, Position { x: 2, y: 1 }) == CellType::Live(a, 1))
            &&& (classify(s, Position { x: 3, y: 1 }) == CellType::Live(b, 2))
            &&& (classify(s, Position { x: 4, y: 1 }) == CellType::Live(c, 1))
            &&& (classify(s, Position { x: 3, y: 0 }) == CellType::Dead(3))
            &&& (classify(s, Position { x: 3, y: 2 }) == CellType::Dead(3))
            &&& forall|q: Position|
                !occupies(s, q) && q != (Position { x: 3, y: 0 }) && q != (Position {
                    x: 3,
                    y: 2,
                }) ==> #[trigger] live_nbrs(s, q) != 3
        }),
{
    let s = seq![
        (a, Position { x: 2, y: 1 }),
        (b, Position { x: 3, y: 1 }),
        (c, Position { x: 4, y: 1 }),
    ];
    assert(s[0] == (a, Position { x: 2, y: 1 }));
    assert(s[1] == (b, Position { x: 3, y: 1 }));
    assert(s[2] == (c, Position { x: 4, y: 1 }));
    assert(forall|i: int|
        0 <= i < s.len() ==> ((#[trigger] s[i]).1 == Position { x: 2, y: 1 } || s[i].1
            == Position { x: 3, y: 1 } || s[i].1 == Position { x: 4, y: 1 }));
    assert(occupant(s, Position { x: 2, y: 1 }) == a) by {
        let j = choose|j: int| 0 <= j < s.len() && s[j].1 == (Position { x: 2, y: 1 });
        assert(j == 0);
    }
    assert(occupant(s, Position { x: 3, y: 1 }) == b) by {
        let j = choose|j: int| 0 <= j < s.len() && s[j].1 == (Position { x: 3, y: 1 });
        assert(j == 1);
    }
    assert(occupant(s, Position { x: 4, y: 1 }) == c) by {
        let j = choose|j: int| 0 <= j < s.len() && s[j].1 == (Position { x: 4, y: 1 });
        assert(j == 2);
    }
}

/// Applying an empty death list leaves the population unchanged: a tick
/// that emits no effects leaves the world exactly as it was.
pub proof fn lemma_no_deaths_no_change(pop: Seq<(CellId, Position)>)
    ensures
        surviving(pop, Seq::empty()) == pop,
    decreases pop.len(),
{
    if pop.len() > 0 {
        lemma_no_deaths_no_change(pop.drop_last());
        assert(!Seq::<CellId>::empty().contains(pop.last().0));
        assert(surviving(pop, Seq::empty()) =~= pop);
    } else {
        assert(surviving(pop, Seq::empty()) =~= pop);
    }
}

/// The decision behind a manual cell toggle: the first live cell found at
/// `p`, which the caller should notify dead, or `None`, upon which the
/// caller should insert a new live cell at `p`.
pub fn toggle_target(population: &Vec<(CellId, Position)>, p: Position) -> (r: Option<CellId>)
    ensures
        r is Some <==> occupies(population@, p),
        match r {
            Some(id) => exists|i: int|
                #![auto]
                0 <= i < population@.len() && population@[i] == (id, p) && (forall|j: int|
                    0 <= j < i ==> population@[j].1 != p),
            None => !occupies(population@, p),
        },
{
    let n = population.len();
    for i in 0..n
        invariant
            n == population@.len(),
            forall|j: int| 0 <= j < i ==> population@[j].1 != p,
    {
        let (id, q) = population[i];
        if q == p {
            return Some(id);
        }
    }
    None
}

} // verus!
