use std::cell::RefCell;
use std::collections::HashSet;
use std::rc::Rc;

use ant_colony::action::Action;
use ant_colony::config::{ANT_COUNT, FRUIT_TARGET, PPM, SCENT_HALF_LIFE_MS, VISION_RADIUS};
use ant_colony::decisions::{AntId, AntMove, AntView, DecisionSource, DecisionStats, Origin, ThinkTimer};
use ant_colony::game::Game;
use ant_colony::grid::{Cell, Dir, Grid, Occupant};
use ant_colony::nest::Nest;
use ant_colony::questions::Questions;
use ant_colony::rules::{decide, RuleSource};
use ant_colony::vision::sightings;
use ant_colony::world::{Ant, Intent, LastDecision, World};

const AN_ORDER: &str = "fetch fruit and bring it home";

fn c(x: i32, y: i32) -> Cell {
    Cell { x, y }
}

/// What is left of a trail after `delta_ms`, in parts per million.
fn scent_left(delta_ms: u64) -> u32 {
    (0.5f64.powf(delta_ms as f64 / SCENT_HALF_LIFE_MS as f64) * PPM as f64) as u32
}

/// A source the test writes into, so the sequence of decisions is exact.
#[derive(Clone, Default)]
struct Script(Rc<RefCell<Vec<AntMove>>>);

impl DecisionSource for Script {
    fn request(&mut self, _ant: &AntView<'_>) {}

    fn poll(&mut self) -> Vec<AntMove> {
        std::mem::take(&mut *self.0.borrow_mut())
    }

    fn name(&self) -> &'static str {
        "script"
    }

    fn discarded(&self) -> u32 {
        0
    }
}

struct Fixture {
    world: World,
    script: Script,
    stats: DecisionStats,
    fruit: u32,
}

fn place_ant(world: &mut World, id: u32, at: Cell) -> u32 {
    let e = world.next_entity;
    world.next_entity += 1;
    world.occupancy.occupy(world.grid, at, Occupant::Ant(e));
    world.ants.push(Ant {
        id: AntId(id),
        entity: e,
        pos: at,
        facing: Dir::North,
        carrying: None,
        since_nest: 0,
        timer: ThinkTimer::staggered(0, 1),
        intent: None,
        step: None,
        last: LastDecision { action: None, confidence: None },
    });
    e
}

fn fixture(ant_at: Cell, fruit_at: Cell) -> Fixture {
    let mut world = World::empty(Grid::default(), Nest::default(), &Vec::new());
    place_ant(&mut world, 0, ant_at);
    let fruit = world.next_entity;
    assert!(world.plant_at(fruit_at));
    Fixture { world, script: Script::default(), stats: DecisionStats::default(), fruit }
}

impl Fixture {
    fn decide(&mut self, action: Action) {
        self.script.0.borrow_mut().push(AntMove { id: AntId(0), action, origin: Origin::Rules });
    }

    /// Lets the simulation work for `seconds`, in 50 ms slices.
    fn run(&mut self, seconds: f32) {
        for _ in 0..((seconds / 0.05) as u32) {
            self.world.apply_decisions(&mut self.script, &mut self.stats);
            self.world.pursue_intents();
            self.world.animate(50);
        }
    }

    fn carrying(&self) -> Option<u32> {
        self.world.ants[0].carrying
    }

    fn busy(&self) -> bool {
        self.world.ants[0].intent.is_some()
    }

    fn fruit_on_board(&self) -> bool {
        self.world.fruits.iter().any(|f| f.entity == self.fruit && f.at.is_some())
    }
}

#[test]
fn one_decision_fetches_a_fruit_four_cells_away() {
    let mut fixture = fixture(c(5, 5), c(5, 9));
    let fruit = fixture.fruit;
    fixture.decide(Action::Fetch { fruit, dir: Dir::North, distance: 4 });
    fixture.run(3.0);
    assert_eq!(fixture.carrying(), Some(fixture.fruit));
    assert!(!fixture.busy(), "the intent is over and the ant asks again");
    assert!(!fixture.fruit_on_board(), "the fruit has left the board");
}

#[test]
fn a_trail_leads_a_carrier_home_to_the_nest() {
    let nest = Nest::default();
    let ant_at = c(20, 12);
    let mut fixture = fixture(ant_at, c(20, 13));
    let grid = fixture.world.grid;
    assert!(!nest.within(ant_at, VISION_RADIUS), "the nest must be out of sight, or the test proves nothing");

    let fruit = fixture.fruit;
    fixture.decide(Action::Fetch { fruit, dir: Dir::North, distance: 1 });
    fixture.run(0.5);
    assert!(fixture.carrying().is_some(), "picked it up");

    for (index, cell) in [c(21, 12), c(22, 13), c(23, 13), c(24, 14), c(25, 14), c(26, 14)].into_iter().enumerate() {
        fixture.world.scent.deposit(grid, cell, 5 - index as u32);
    }

    fixture.decide(Action::FollowScent(Dir::East));
    fixture.run(3.0);

    let position = fixture.world.ants[0].pos;
    assert!(nest.within(position, VISION_RADIUS), "followed the trail to {position:?} and still cannot see home");
    assert!(!fixture.busy(), "the intent ends when the nest comes in sight");
}

#[test]
fn an_intent_for_a_vanished_fruit_is_dropped() {
    let mut fixture = fixture(c(5, 5), c(5, 9));
    let fruit = fixture.fruit;
    fixture.decide(Action::Fetch { fruit, dir: Dir::North, distance: 4 });
    fixture.run(0.2);
    assert!(fixture.busy(), "on its way");

    // Somebody else was quicker: the fruit is gone from the board.
    let grid = fixture.world.grid;
    let k = fixture.world.fruits.iter().position(|f| f.entity == fruit).expect("still listed");
    let at = fixture.world.fruits[k].at.expect("on the board");
    fixture.world.occupancy.vacate(grid, at, fruit);
    fixture.world.fruits.remove(k);
    fixture.run(0.5);

    assert!(!fixture.busy());
    assert_eq!(fixture.carrying(), None);
}

#[test]
fn carrying_home_with_nothing_in_hand_just_ends() {
    let mut fixture = fixture(c(5, 5), c(5, 9));
    fixture.decide(Action::CarryHome);
    fixture.run(0.5);
    assert!(!fixture.busy());
    assert_eq!(fixture.world.stores, 0);
}

#[test]
fn a_fruit_carried_into_the_nest_is_counted() {
    let nest = Nest::default();
    let mut fixture = fixture(c(nest.min.x - 3, nest.min.y), c(nest.min.x - 3, nest.min.y - 1));
    let fruit = fixture.fruit;
    fixture.decide(Action::Fetch { fruit, dir: Dir::South, distance: 1 });
    fixture.run(0.5);
    assert_eq!(fixture.carrying(), Some(fruit));
    fixture.decide(Action::CarryHome);
    fixture.run(2.0);
    assert_eq!(fixture.world.stores, 1);
    assert_eq!(fixture.carrying(), None, "hands free again");
    assert!(fixture.world.fruits.iter().all(|f| f.entity != fruit), "the fruit is eaten, not lying around");
}

fn colony(order: &str) -> Game<RuleSource> {
    let mut game = Game::new(None, RuleSource::default(), Questions::default());
    if !order.is_empty() {
        game.give_order(order.to_string());
    }
    game
}

fn frame(game: &mut Game<RuleSource>, delta_ms: u64) {
    game.tick(delta_ms, scent_left(delta_ms));
}

fn run_headless(frames: usize, delta_ms: u64) {
    let mut game = colony(AN_ORDER);
    for frame_no in 0..frames {
        frame(&mut game, delta_ms);
        let nest = game.world.nest;
        let mut taken: HashSet<Cell> = HashSet::new();
        for fruit in &game.world.fruits {
            if let Some(at) = fruit.at {
                assert!(!nest.contains(at), "a fruit grew inside the nest at {at:?}");
                assert!(taken.insert(at), "two fruits on cell {at:?} in frame {frame_no}");
            }
        }
        for ant in &game.world.ants {
            assert!(taken.insert(ant.pos), "cell {:?} is taken twice in frame {frame_no}", ant.pos);
            if let Some(anim) = ant.step {
                assert!(taken.insert(anim.to), "an ant walks into the taken cell {:?} in frame {frame_no}", anim.to);
            }
        }
    }
}

#[test]
fn mod_ants_never_share_a_cell() {
    run_headless(3600, 50);
}

#[test]
fn the_simulation_delivers_fruit_when_driven_by_rules() {
    let mut game = colony(AN_ORDER);
    assert_eq!(game.world.fruits.len(), FRUIT_TARGET, "the board starts stocked");
    for _ in 0..600 {
        frame(&mut game, 50);
    }
    let stored = game.world.stores;
    assert!(stored >= 5, "the classic rules delivered only {stored} fruits in 30 seconds");
    assert!(game.world.fruits.len() <= FRUIT_TARGET, "regrowth tops up, it does not stack up");
}

#[test]
fn the_colony_starts_in_the_nest() {
    let game = colony(AN_ORDER);
    let nest = game.world.nest;
    let positions: Vec<Cell> = game.world.ants.iter().map(|a| a.pos).collect();
    assert_eq!(positions.len(), ANT_COUNT);
    for position in &positions {
        assert!(nest.contains(*position), "{position:?} is not the nest");
    }
    assert_eq!(positions.iter().collect::<HashSet<_>>().len(), ANT_COUNT, "no two ants on one cell");
}

#[test]
fn carrying_ants_leave_trails_behind() {
    let mut game = colony(AN_ORDER);
    for _ in 0..600 {
        frame(&mut game, 50);
    }
    let grid = game.world.grid;
    let scented = grid.cells().into_iter().filter(|cell| game.world.scent.at(grid, *cell) > 0).count();
    assert!(scented >= 10, "only {scented} cells carry scent \u{2014} nobody marked a way");
}

#[test]
fn the_colony_sleeps_until_the_queen_speaks() {
    let mut game = colony("");
    for _ in 0..200 {
        frame(&mut game, 50);
    }
    assert!(!game.session.awake.0);
    let stats = &game.session.stats;
    assert_eq!((stats.from_rules, stats.from_jev, stats.discarded), (0, 0, 0), "a sleeping colony must not ask anything at all");
    let nest = game.world.nest;
    for ant in &game.world.ants {
        assert!(nest.contains(ant.pos), "{:?} left the nest", ant.pos);
        assert!(ant.intent.is_none(), "an ant is pursuing something already");
    }
}

#[test]
fn the_first_order_sets_the_whole_colony_off() {
    let mut game = colony("");
    frame(&mut game, 0);
    game.give_order("go and look for fruit".to_string());
    frame(&mut game, 0);
    assert!(game.session.awake.0);
    assert_eq!(game.session.stats.from_rules as usize, ANT_COUNT, "the first order reaches every ant at once, not one by one");
    for _ in 0..160 {
        frame(&mut game, 50);
    }
    let nest = game.world.nest;
    let outside = game.world.ants.iter().filter(|a| !nest.contains(a.pos)).count();
    assert!(outside >= ANT_COUNT / 2, "only {outside} of {ANT_COUNT} ants left the nest after the order");
}

#[test]
fn nobody_is_asked_more_than_their_interval_allows() {
    let mut game = colony(AN_ORDER);
    for _ in 0..600 {
        frame(&mut game, 16);
    }
    let asked = game.session.stats.from_rules;
    assert!(asked < 1000, "{asked} decisions in ten seconds \u{2014} something is asking every frame");
}

#[test]
fn most_ants_can_smell_a_trail() {
    let mut game = colony(AN_ORDER);
    for _ in 0..1200 {
        frame(&mut game, 50);
    }
    let w = &game.world;
    let smelling = w
        .ants
        .iter()
        .filter(|a| {
            sightings(w.grid, &w.occupancy, w.nest, &w.scent, a.pos, VISION_RADIUS).iter().any(|line| line.contains("scent trail"))
        })
        .count();
    assert!(
        smelling >= ANT_COUNT / 3,
        "only {smelling} of {ANT_COUNT} ants have a trail within sight \u{2014} the board may have outgrown the trail's reach"
    );
}

#[test]
fn mod_every_ant_stays_on_the_board() {
    let mut game = colony(AN_ORDER);
    for _ in 0..1200 {
        frame(&mut game, 50);
    }
    let grid = game.world.grid;
    assert_eq!(game.world.ants.len(), ANT_COUNT);
    for ant in &game.world.ants {
        assert!(grid.contains(ant.pos), "{:?} is off the board", ant.pos);
    }
}

#[test]
fn a_step_reserves_its_target_and_releases_the_start_on_arrival() {
    let mut fixture = fixture(c(5, 5), c(9, 9));
    let grid = fixture.world.grid;
    let e = fixture.world.ants[0].entity;
    assert!(fixture.world.start_step(0, Dir::East));
    assert_eq!(fixture.world.occupancy.at(grid, c(6, 5)), Some(Occupant::Ant(e)));
    assert_eq!(fixture.world.occupancy.at(grid, c(5, 5)), Some(Occupant::Ant(e)));
    fixture.world.animate(200);
    assert_eq!(fixture.world.ants[0].pos, c(5, 5), "still on the way");
    fixture.world.animate(50);
    assert_eq!(fixture.world.ants[0].pos, c(6, 5));
    assert_eq!(fixture.world.occupancy.at(grid, c(5, 5)), None);
    assert_eq!(fixture.world.ants[0].since_nest, 1);
    assert!(fixture.world.scent.at(grid, c(6, 5)) > 0, "a searching ant marks the ground");
}

#[test]
fn a_walk_ends_where_the_way_is_blocked() {
    let mut fixture = fixture(c(5, 5), c(6, 5));
    fixture.world.ants[0].intent = Some(Intent::Walk { dir: Dir::East, left: 12 });
    fixture.world.pursue_intents();
    assert!(fixture.world.ants[0].intent.is_none());
    assert!(fixture.world.ants[0].step.is_none());
}

#[test]
fn decisions_reach_ants_in_id_order_and_are_counted() {
    let mut world = World::empty(Grid::default(), Nest::default(), &Vec::new());
    place_ant(&mut world, 1, c(3, 3));
    place_ant(&mut world, 0, c(7, 7));
    let mut stats = DecisionStats::default();
    let moves = vec![
        AntMove { id: AntId(1), action: Action::Walk(Dir::East), origin: Origin::Rules },
        AntMove { id: AntId(0), action: Action::Wait, origin: Origin::Jev { confidence: 800_000, latency_ms: 600, input_tokens: 150 } },
        AntMove { id: AntId(9), action: Action::CarryHome, origin: Origin::Rules },
    ];
    world.apply_moves(moves, &mut stats);
    assert_eq!(world.ants[0].intent, Some(Intent::Walk { dir: Dir::East, left: 12 }));
    assert_eq!(world.ants[0].last.confidence, None);
    assert_eq!(world.ants[1].intent, None);
    assert_eq!(world.ants[1].last.action, Some(Action::Wait));
    assert_eq!(world.ants[1].last.confidence, Some(800_000));
    assert_eq!((stats.from_rules, stats.from_jev, stats.input_tokens), (2, 1, 150), "a late answer still cost what it cost");
}

/// Everybody follows the plain rules, except ant 0, which behaves as if the
/// queen had said "head south-east, and if you see the plank, take it".
#[derive(Clone, Default)]
struct PlankMinded {
    ready: Rc<RefCell<Vec<AntMove>>>,
    let_go: Rc<RefCell<bool>>,
}

impl DecisionSource for PlankMinded {
    fn request(&mut self, ant: &AntView<'_>) {
        let wanted = if ant.id.0 != 0 {
            None
        } else if *self.let_go.borrow() {
            ant.options.iter().copied().find(|option| matches!(option, Action::LetGoPlank))
        } else {
            ant.options
                .iter()
                .copied()
                .find(|option| matches!(option, Action::TakePlank { .. }))
                .or_else(|| ant.options.iter().copied().find(|option| matches!(option, Action::Walk(Dir::SouthEast))))
        };
        self.ready.borrow_mut().push(AntMove { id: ant.id, action: wanted.unwrap_or_else(|| decide(ant)), origin: Origin::Rules });
    }

    fn poll(&mut self) -> Vec<AntMove> {
        std::mem::take(&mut *self.ready.borrow_mut())
    }

    fn name(&self) -> &'static str {
        "plank-minded rules"
    }

    fn discarded(&self) -> u32 {
        0
    }
}

fn plank_board() -> ant_colony::scenario::Scenario {
    let mut water = Vec::new();
    for y in 0..12 {
        water.push((12, y));
    }
    ant_colony::scenario::Scenario {
        name: "plank".to_string(),
        briefing: "The fruit is across the river. There is a plank.".to_string(),
        width: 20,
        height: 12,
        nest_at: (1, 8),
        nest_size: 3,
        ants: 8,
        water,
        fruit: vec![(16, 3), (17, 5), (16, 8)],
        plank_at: Some((8, 3)),
        target: 2,
    }
}

fn task_board() -> (Game<PlankMinded>, PlankMinded) {
    let source = PlankMinded::default();
    let board = plank_board();
    assert!(board.fits());
    let mut game = Game::new(Some(&board), source.clone(), Questions::default());
    game.give_order("go and work".to_string());
    game.tick(50, scent_left(50));
    (game, source)
}

fn bridges(world: &World) -> usize {
    let grid = world.grid;
    grid.cells()
        .into_iter()
        .filter(|cell| world.occupancy.terrain_at(grid, *cell) == ant_colony::grid::Terrain::Bridge)
        .count()
}

fn run_until(game: &mut Game<PlankMinded>, limit: f32, done: impl Fn(&Game<PlankMinded>) -> bool) -> bool {
    for _ in 0..((limit / 0.05) as u32) {
        if done(game) {
            return true;
        }
        game.tick(50, scent_left(50));
    }
    done(game)
}

#[test]
fn an_ant_bridges_the_river() {
    let (mut game, _source) = task_board();
    assert_eq!(bridges(&game.world), 0, "the river starts uncrossed");
    let crossed = run_until(&mut game, 120.0, |game| bridges(&game.world) > 0);
    assert!(crossed, "the plank never reached the water");
    assert_eq!(bridges(&game.world), 1, "exactly one crossing, not a row");
}

#[test]
fn a_plank_let_go_of_lands_back_on_the_ground() {
    let (mut game, source) = task_board();
    let picked_up = run_until(&mut game, 60.0, |game| game.world.plank.map_or(false, |p| p.state.carrier.is_some()));
    assert!(picked_up, "the ant never picked the plank up");

    *source.let_go.borrow_mut() = true;
    game.give_order("leave it".to_string());

    let dropped = run_until(&mut game, 20.0, |game| game.world.plank.map_or(false, |p| p.state.carrier.is_none()));
    assert!(dropped, "the ant is still holding it");
    assert!(game.world.plank.map_or(false, |p| p.at.is_some()), "and it is back on a cell, where another ant can find it");
    assert_eq!(bridges(&game.world), 0, "it never reached the water");
}

#[test]
fn the_colony_is_shuffled_into_its_nest() {
    let first_cells: HashSet<Cell> = (0..12).map(|_| colony(AN_ORDER).world.ants[0].pos).collect();
    assert!(first_cells.len() > 1, "the first ant always starts on the same cell");
    let game = colony(AN_ORDER);
    let facings: HashSet<String> = game.world.ants.iter().map(|a| format!("{:?}", a.facing)).collect();
    assert!(facings.len() > 1, "every ant faces the same way");
    assert!(game.world.ants.iter().enumerate().all(|(i, a)| a.id == AntId(i as u32)));
}

#[test]
fn a_new_fruit_grows_outside_the_nest_on_a_free_cell() {
    let mut world = World::empty(Grid { width: 8, height: 8 }, Nest { min: c(0, 0), size: 2 }, &Vec::new());
    let before = world.fruits.len();
    world.plant();
    assert_eq!(world.fruits.len(), before + 1);
    let at = world.fruits[before].at.expect("on the board");
    assert!(!world.nest.contains(at));
    let placed: HashSet<Cell> = (0..12)
        .map(|_| {
            let mut w = World::empty(Grid { width: 8, height: 8 }, Nest { min: c(0, 0), size: 2 }, &Vec::new());
            w.plant();
            w.fruits[0].at.expect("on the board")
        })
        .collect();
    assert!(placed.len() > 1, "every fruit grows on the same cell");
}
