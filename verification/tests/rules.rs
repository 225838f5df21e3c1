use gol::cell_matrix::GridError;
use gol::engine::apply_births;
use gol::engine::cell_death;
use gol::engine::toggle_target;
use gol::engine::GolCore;
use gol::CellId;
use gol::GolConfig;
use gol::Position;

fn cid(n: u64) -> CellId {
    CellId { id: n }
}

fn pos(x: i32, y: i32) -> Position {
    Position { x, y }
}

fn positions(pop: &[(CellId, Position)]) -> Vec<Position> {
    let mut ps: Vec<Position> = pop.iter().map(|(_, p)| *p).collect();
    ps.sort_by_key(|p| (p.y, p.x));
    ps
}

/// Runs one firing tick and applies its effects to the population, handing
/// out fresh identities from `next_id` for the newborns.
fn run_tick(
    core: &mut GolCore,
    config: &GolConfig,
    population: &mut Vec<(CellId, Position)>,
    next_id: u64,
) -> u64 {
    let effects = core.apply_rules(config, 500, population).unwrap();
    assert!(effects.fired);
    cell_death(population, &effects.deaths);
    let born = effects.births.len() as u64;
    apply_births(population, &effects.births, next_id);
    next_id + born
}

#[test]
fn empty_population_tick_is_quiet() {
    let mut core = GolCore::new(500);
    let config = GolConfig { width: 8, height: 8 };
    let cells: Vec<(CellId, Position)> = Vec::new();
    let effects = core.apply_rules(&config, 500, &cells).unwrap();
    assert!(effects.fired);
    assert!(effects.deaths.is_empty());
    assert!(effects.births.is_empty());
}

#[test]
fn isolated_cell_dies_of_underpopulation() {
    let mut core = GolCore::new(500);
    let config = GolConfig { width: 8, height: 8 };
    let cells = vec![(cid(42), pos(3, 3))];
    let effects = core.apply_rules(&config, 500, &cells).unwrap();
    assert!(effects.fired);
    assert_eq!(effects.deaths, vec![cid(42)]);
    assert!(effects.births.is_empty());
}

#[test]
fn overpopulated_cell_dies() {
    // A plus shape: the center has 4 live neighbors and dies; each arm has
    // exactly 3 and survives; the four diagonal corners are born.
    let mut core = GolCore::new(500);
    let config = GolConfig { width: 6, height: 6 };
    let cells = vec![
        (cid(0), pos(2, 2)),
        (cid(1), pos(1, 2)),
        (cid(2), pos(3, 2)),
        (cid(3), pos(2, 1)),
        (cid(4), pos(2, 3)),
    ];
    let effects = core.apply_rules(&config, 500, &cells).unwrap();
    assert_eq!(effects.deaths, vec![cid(0)]);
    let mut births = effects.births.clone();
    births.sort_by_key(|p| (p.y, p.x));
    assert_eq!(births, vec![pos(1, 1), pos(3, 1), pos(1, 3), pos(3, 3)]);
}

#[test]
fn block_still_life_is_stable() {
    let mut core = GolCore::new(500);
    let config = GolConfig { width: 4, height: 4 };
    let mut population = vec![
        (cid(1), pos(1, 1)),
        (cid(2), pos(1, 2)),
        (cid(3), pos(2, 1)),
        (cid(4), pos(2, 2)),
    ];
    let before = population.clone();
    let mut next_id = 5;
    for _ in 0..4 {
        next_id = run_tick(&mut core, &config, &mut population, next_id);
        assert_eq!(population, before);
    }
}

#[test]
fn blinker_oscillates() {
    let mut core = GolCore::new(500);
    let config = GolConfig { width: 5, height: 3 };
    let mut population = vec![(cid(1), pos(2, 1)), (cid(2), pos(3, 1)), (cid(3), pos(4, 1))];
    let horizontal = positions(&population);
    let mut next_id = 4;
    next_id = run_tick(&mut core, &config, &mut population, next_id);
    assert_eq!(positions(&population), vec![pos(3, 0), pos(3, 1), pos(3, 2)]);
    next_id = run_tick(&mut core, &config, &mut population, next_id);
    assert_eq!(positions(&population), horizontal);
    // The alternation keeps repeating.
    next_id = run_tick(&mut core, &config, &mut population, next_id);
    assert_eq!(positions(&population), vec![pos(3, 0), pos(3, 1), pos(3, 2)]);
    let _ = run_tick(&mut core, &config, &mut population, next_id);
    assert_eq!(positions(&population), horizontal);
}

#[test]
fn timer_gates_the_rule() {
    let mut core = GolCore::new(500);
    let config = GolConfig { width: 4, height: 4 };
    let cells = vec![(cid(9), pos(1, 1))];
    // Two short frames accumulate without firing; nothing is emitted.
    let effects = core.apply_rules(&config, 200, &cells).unwrap();
    assert!(!effects.fired);
    assert!(effects.deaths.is_empty() && effects.births.is_empty());
    let effects = core.apply_rules(&config, 200, &cells).unwrap();
    assert!(!effects.fired);
    // The third frame crosses the period (600 >= 500) and fires; the
    // remainder of 100 ms carries over, so 400 ms later it fires again.
    let effects = core.apply_rules(&config, 200, &cells).unwrap();
    assert!(effects.fired);
    assert_eq!(effects.deaths, vec![cid(9)]);
    let effects = core.apply_rules(&config, 399, &cells).unwrap();
    assert!(!effects.fired);
    let effects = core.apply_rules(&config, 1, &cells).unwrap();
    assert!(effects.fired);
}

#[test]
fn default_timer_and_config() {
    let mut core = GolCore::default();
    let config = GolConfig::default();
    assert_eq!(config.width, 20);
    assert_eq!(config.height, 20);
    let cells: Vec<(CellId, Position)> = Vec::new();
    let effects = core.apply_rules(&config, 499, &cells).unwrap();
    assert!(!effects.fired);
    let effects = core.apply_rules(&config, 1, &cells).unwrap();
    assert!(effects.fired);
}

#[test]
fn contract_violation_aborts_the_tick() {
    let mut core = GolCore::new(500);
    let config = GolConfig { width: 4, height: 4 };
    let dup = vec![(cid(1), pos(1, 1)), (cid(2), pos(1, 1))];
    assert!(matches!(core.apply_rules(&config, 500, &dup), Err(GridError::DuplicatePosition)));
    let oob = vec![(cid(1), pos(7, 1))];
    assert!(matches!(core.apply_rules(&config, 500, &oob), Err(GridError::OutOfBoundsPosition)));
}

#[test]
fn cell_death_removes_named_cells() {
    let mut population = vec![(cid(1), pos(0, 0)), (cid(2), pos(1, 0)), (cid(3), pos(2, 0))];
    cell_death(&mut population, &vec![cid(2)]);
    assert_eq!(population, vec![(cid(1), pos(0, 0)), (cid(3), pos(2, 0))]);
}

#[test]
fn cell_death_tolerates_redundant_notifications() {
    let mut population = vec![(cid(1), pos(0, 0)), (cid(2), pos(1, 0))];
    // An absent identity and a doubled one are both no-ops beyond the
    // single removal.
    cell_death(&mut population, &vec![cid(9), cid(2), cid(2)]);
    assert_eq!(population, vec![(cid(1), pos(0, 0))]);
    cell_death(&mut population, &vec![cid(2)]);
    assert_eq!(population, vec![(cid(1), pos(0, 0))]);
}

#[test]
fn apply_births_assigns_consecutive_identities() {
    let mut population = vec![(cid(10), pos(0, 0))];
    apply_births(&mut population, &vec![pos(1, 1), pos(2, 2)], 11);
    assert_eq!(
        population,
        vec![(cid(10), pos(0, 0)), (cid(11), pos(1, 1)), (cid(12), pos(2, 2))]
    );
}

#[test]
fn toggle_finds_the_occupant() {
    let population = vec![(cid(1), pos(0, 0)), (cid(2), pos(1, 0))];
    assert_eq!(toggle_target(&population, pos(1, 0)), Some(cid(2)));
    assert_eq!(toggle_target(&population, pos(2, 2)), None);
}
