use std::collections::HashSet;

use ant_colony::config::{ANT_COUNT, FRUIT_TARGET, PPM, SCENT_HALF_LIFE_MS};
use ant_colony::decisions::Origin;
use ant_colony::game::Game;
use ant_colony::grid::{Cell, Dir, Terrain};
use ant_colony::panels::{confidence_rgb, toggle_panels, DebugLayer, LabOpen, OrderHistory, QuestionDraft};
use ant_colony::questions::{Questions, DEFAULT_STEP};
use ant_colony::rules::RuleSource;
use ant_colony::scenario::{check_solved, levels, Scenario, Solved};

fn c(x: i32, y: i32) -> Cell {
    Cell { x, y }
}

fn scent_left(delta_ms: u64) -> u32 {
    (0.5f64.powf(delta_ms as f64 / SCENT_HALF_LIFE_MS as f64) * PPM as f64) as u32
}

fn fruit_board() -> Scenario {
    Scenario {
        name: "fruit".to_string(),
        briefing: "Bring four fruits home.".to_string(),
        width: 16,
        height: 10,
        nest_at: (1, 1),
        nest_size: 3,
        ants: 6,
        water: Vec::new(),
        fruit: vec![(10, 2), (12, 7), (14, 4), (8, 8), (13, 1)],
        plank_at: None,
        target: 4,
    }
}

fn plank_board() -> Scenario {
    let mut water = Vec::new();
    for y in 0..12 {
        water.push((12, y));
    }
    Scenario {
        name: "plank".to_string(),
        briefing: "The fruit is across the river. There is a plank.".to_string(),
        width: 20,
        height: 12,
        nest_at: (1, 8),
        nest_size: 3,
        ants: 8,
        water,
        fruit: vec![(16, 3), (17, 5), (16, 8)],
        plank_at: Some((8, 3)),
        target: 2,
    }
}

fn boards() -> Vec<Scenario> {
    vec![fruit_board(), plank_board()]
}

fn game() -> Game<RuleSource> {
    Game::new(None, RuleSource::default(), Questions::default())
}

fn pick(game: &mut Game<RuleSource>, level: Option<usize>) -> Option<Scenario> {
    match level {
        None => {
            game.restart(None);
            None
        }
        Some(index) => {
            let board = boards().swap_remove(index);
            assert!(board.fits());
            game.restart(Some(&board));
            Some(board)
        }
    }
}

#[test]
fn choosing_a_level_starts_it() {
    let mut game = game();
    let scenario = pick(&mut game, Some(1)).expect("a board");
    assert_eq!(game.world.fruits.len(), scenario.fruit.len());
    assert_eq!(game.world.ants.len(), scenario.ants);
    assert!(game.world.plank.is_some(), "this board has a plank");
    let nest = game.world.nest;
    for ant in &game.world.ants {
        assert!(nest.contains(ant.pos), "the colony starts at home");
    }
}

#[test]
fn switching_levels_leaves_nothing_behind() {
    let mut game = game();
    pick(&mut game, Some(1));
    assert!(game.world.plank.is_some());
    let scenario = pick(&mut game, Some(0)).expect("a board");
    assert!(game.world.plank.is_none(), "the plank came along");
    assert_eq!(game.world.fruits.len(), scenario.fruit.len());
    assert_eq!(game.world.ants.len(), scenario.ants);
    assert_eq!((game.world.grid.width, game.world.grid.height), (scenario.width, scenario.height));
    pick(&mut game, None);
    assert!(game.target.is_none());
    assert_eq!(game.world.ants.len(), ANT_COUNT);
}

#[test]
fn a_new_level_starts_from_nothing() {
    let mut game = game();
    pick(&mut game, Some(0));
    game.world.stores = 4;
    game.session.awake.0 = true;
    game.session.order.0 = "go east".to_string();
    pick(&mut game, Some(1));
    assert_eq!(game.world.stores, 0);
    assert!(!game.session.solved.0);
    assert!(!game.session.awake.0, "asleep again");
    assert!(game.session.order.0.is_empty());
}

#[test]
fn the_bill_carries_across_levels() {
    let mut game = game();
    pick(&mut game, Some(0));
    game.session.stats.record(&Origin::Jev { confidence: 900_000, latency_ms: 700, input_tokens: 180 });
    assert_eq!(game.session.stats.this_level, 1);
    pick(&mut game, Some(1));
    let stats = &game.session.stats;
    assert_eq!(stats.input_tokens, 180, "the tokens were spent all the same");
    assert_eq!(stats.from_jev, 1, "and so was the request");
    assert!(stats.cost_nano_usd() > 0, "the money did not come back");
    assert_eq!(stats.this_level, 0, "but the new attempt counts its own requests");
}

#[test]
fn the_river_is_there_before_the_colony_is() {
    let mut game = game();
    let scenario = pick(&mut game, Some(1)).expect("a board");
    let grid = game.world.grid;
    for (x, y) in &scenario.water {
        assert_eq!(game.world.occupancy.terrain_at(grid, c(*x, *y)), Terrain::Water, "({x}, {y}) should be river");
    }
    pick(&mut game, None);
    let grid = game.world.grid;
    assert!(
        grid.cells().into_iter().all(|cell| game.world.occupancy.terrain_at(grid, cell) == Terrain::Ground),
        "the open field has no water"
    );
}

#[test]
fn the_open_field_restarts_too() {
    let mut game = game();
    pick(&mut game, None);
    game.session.awake.0 = true;
    let fruit = game.world.fruits.len();
    for _ in 0..200 {
        game.tick(50, scent_left(50));
    }
    pick(&mut game, None);
    assert!(game.target.is_none());
    assert!(!game.session.awake.0, "asleep again");
    assert_eq!(game.world.fruits.len(), fruit, "the field is stocked again");
    let nest = game.world.nest;
    assert_eq!(game.world.ants.len(), ANT_COUNT);
    for ant in &game.world.ants {
        assert!(nest.contains(ant.pos), "everybody is home again");
    }
}

#[test]
fn a_level_can_be_restarted_from_the_middle_of_itself() {
    let mut game = game();
    pick(&mut game, Some(0));
    game.session.awake.0 = true;
    game.give_order("spread out".to_string());
    for _ in 0..200 {
        game.tick(50, scent_left(50));
    }
    let scenario = pick(&mut game, Some(0)).expect("a board");
    assert_eq!(game.world.fruits.len(), scenario.fruit.len(), "all back");
    let nest = game.world.nest;
    assert_eq!(game.world.ants.len(), scenario.ants);
    for ant in &game.world.ants {
        assert!(nest.contains(ant.pos), "everybody is home again");
    }
}

#[test]
fn the_fruit_is_walled_off_by_the_river() {
    let scenario = plank_board();
    let grid = scenario.grid();
    let water: HashSet<(i32, i32)> = scenario.water.iter().copied().collect();
    let mut seen: HashSet<Cell> = HashSet::new();
    let mut queue: Vec<Cell> = scenario.nest().cells();
    seen.extend(queue.iter().copied());
    while let Some(cell) = queue.pop() {
        for direction in Dir::COMPASS {
            let o = direction.offset();
            let next = c(cell.x + o.x, cell.y + o.y);
            if grid.contains(next) && !water.contains(&(next.x, next.y)) && seen.insert(next) {
                queue.push(next);
            }
        }
    }
    for (x, y) in &scenario.fruit {
        assert!(!seen.contains(&c(*x, *y)), "the fruit at ({x}, {y}) can be reached without the plank");
    }
    let (px, py) = scenario.plank_at.expect("there is a plank");
    assert!(seen.contains(&c(px, py)), "the plank itself has to be reachable, or the task is impossible");
}

#[test]
fn a_board_asking_for_more_fruit_than_it_has_is_refused() {
    let mut scenario = plank_board();
    scenario.target = scenario.fruit.len() as u32 + 1;
    assert!(scenario.check().is_err());
}

#[test]
fn every_mistake_on_a_board_is_named() {
    assert_eq!(plank_board().check(), Ok(()));
    assert_eq!(fruit_board().check(), Ok(()));

    let mut off = plank_board();
    off.nest_at = (18, 8);
    assert_eq!(off.check(), Err("the nest reaches off the board at IVec2(20, 8)".to_string()));

    let mut floating = plank_board();
    floating.fruit.push((12, 4));
    assert_eq!(floating.check(), Err("a fruit floats in the river at (12, 4)".to_string()));

    let mut wet = plank_board();
    wet.plank_at = Some((12, 0));
    assert_eq!(wet.check(), Err("the plank starts in the water".to_string()));

    let mut greedy = plank_board();
    greedy.target = 9;
    assert_eq!(greedy.check(), Err("9 fruits to fetch but only 3 on the board".to_string()));

    let mut empty = plank_board();
    empty.ants = 0;
    assert_eq!(empty.check(), Err("a colony of no ants".to_string()));

    let mut nameless = plank_board();
    nameless.name = "  ".to_string();
    assert_eq!(nameless.check(), Err("a level with no name cannot be offered".to_string()));

    let mut crowded = plank_board();
    crowded.ants = 10;
    assert_eq!(crowded.check(), Err("10 ants will not fit in a nest of 9 cells".to_string()));

    let mut stray = plank_board();
    stray.water.push((-1, 3));
    assert_eq!(stray.check(), Err("water at IVec2(-1, 3) is off the board".to_string()));

    let mut lost = plank_board();
    lost.fruit.push((40, 1));
    assert_eq!(lost.check(), Err("fruit at IVec2(40, 1) is off the board".to_string()));

    let mut drifting = plank_board();
    drifting.plank_at = Some((3, -2));
    assert_eq!(drifting.check(), Err("the plank at IVec2(3, -2) is off the board".to_string()));
}

#[test]
fn the_levels_come_in_order() {
    assert_eq!(levels(), vec!["fruit", "plank"]);
}

#[test]
fn the_task_is_solved_once_enough_is_home_and_stays_solved() {
    let mut solved = Solved(false);
    check_solved(Some(4), 3, &mut solved);
    assert!(!solved.0);
    check_solved(Some(4), 4, &mut solved);
    assert!(solved.0);
    check_solved(Some(4), 0, &mut solved);
    assert!(solved.0, "solved stays solved");
    let mut field = Solved(false);
    check_solved(None, 100, &mut field);
    assert!(!field.0, "the open field has no task");
}

#[test]
fn a_task_board_grows_no_fruit() {
    let mut game = Game::new(Some(&fruit_board()), RuleSource::default(), Questions::default());
    let before = game.world.fruits.len();
    for _ in 0..200 {
        game.tick(50, scent_left(50));
    }
    assert!(game.world.fruits.len() <= before);
}

#[test]
fn the_open_field_grows_fruit_back() {
    let mut game = game();
    let e = game.world.fruits[0].entity;
    let grid = game.world.grid;
    let at = game.world.fruits[0].at.expect("on the board");
    game.world.occupancy.vacate(grid, at, e);
    game.world.fruits.remove(0);
    assert_eq!(game.world.fruits.len(), FRUIT_TARGET - 1);
    for _ in 0..80 {
        game.tick(50, scent_left(50));
    }
    assert_eq!(game.world.fruits.len(), FRUIT_TARGET, "one fruit every four seconds while short");
}

#[test]
fn an_order_given_twice_moves_back_to_the_top() {
    let mut history = OrderHistory::starting_with("go east");
    history.remember("spread out");
    history.remember("go east");
    assert_eq!(history.0, vec!["go east".to_string(), "spread out".to_string()]);
    history.remember("");
    assert_eq!(history.0.len(), 2, "saying nothing is not remembered");
    for order in ["a", "b", "c", "d", "e", "f"] {
        history.remember(order);
    }
    assert_eq!(history.0, vec!["f", "e", "d", "c", "b"]);
    assert!(OrderHistory::starting_with("").0.is_empty());
}

#[test]
fn an_empty_question_is_not_taken() {
    let blank = Questions { step: "   ".to_string() }.checked();
    assert_eq!(blank.err(), Some("assets/questions.ron: the step question is empty".to_string()));
    let fine = Questions { step: "Which way?".to_string() }.checked();
    assert_eq!(fine.map(|q| q.step), Ok("Which way?".to_string()));
    assert_eq!(Questions::or_default(Err("gone".to_string())).step, DEFAULT_STEP);
    let draft = QuestionDraft::starting_from(&Questions::default());
    assert_eq!(draft.text, DEFAULT_STEP);
    assert!(draft.note.is_empty());
}

#[test]
fn confidence_colours_follow_the_measured_bands() {
    assert_eq!(confidence_rgb(990_000), (120, 220, 130));
    assert_eq!(confidence_rgb(400_000), (232, 208, 110));
    assert_eq!(confidence_rgb(250_000), (228, 130, 110));
}

#[test]
fn the_panel_keys_flip_what_they_name() {
    let mut layer = DebugLayer::default();
    let mut lab = LabOpen::default();
    assert!(layer.0 && !lab.0);
    toggle_panels(true, false, &mut layer, &mut lab);
    assert!(!layer.0 && !lab.0);
    toggle_panels(false, true, &mut layer, &mut lab);
    assert!(!layer.0 && lab.0);
}

#[test]
fn a_frame_never_gives_back_what_was_spent() {
    let mut game = game();
    game.give_order("bring the fruit home".to_string());
    let mut before = (0u32, 0u32, 0u64);
    for _ in 0..200 {
        game.tick(50, scent_left(50));
        let stats = &game.session.stats;
        let now = (stats.from_jev, stats.from_rules, stats.input_tokens);
        assert!(now.0 >= before.0 && now.1 >= before.1 && now.2 >= before.2);
        before = now;
    }
    assert!(before.1 > 0, "the rules decided something");
}

#[test]
fn silence_takes_the_order_back_but_the_colony_stays_awake() {
    let mut game = game();
    game.hear(ant_colony::bar::OrderChange::Say("go east".to_string()));
    game.tick(50, scent_left(50));
    assert!(game.session.awake.0);
    game.hear(ant_colony::bar::OrderChange::Silence);
    assert_eq!(game.session.order.0, "");
    game.tick(50, scent_left(50));
    assert!(game.session.awake.0);
    assert_eq!(ant_colony::bar::status_line(game.session.awake.0, &game.session.order.0), "No order \u{2014} every ant decides on its own.");
}
