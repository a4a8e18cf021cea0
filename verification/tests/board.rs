use ant_colony::config::{GRID_HEIGHT, GRID_WIDTH, PPM, SCENT_DEPOSIT_PPM};
use ant_colony::grid::{Cell, Dir, Grid, Occupancy, Occupant};
use ant_colony::nest::Nest;
use ant_colony::scent::{describe, Scent};
use ant_colony::vision::sightings;

/// What is left of a trail after `half_lives` half-lives, in parts per million.
fn after_half_lives(half_lives: f64) -> u32 {
    (0.5f64.powf(half_lives) * PPM as f64) as u32
}

fn scent_board() -> (Grid, Scent) {
    let grid = Grid { width: 10, height: 10 };
    (grid, Scent::new(grid))
}

fn c(x: i32, y: i32) -> Cell {
    Cell { x, y }
}

#[test]
fn a_fresh_carrier_leaves_the_most() {
    let (grid, mut scent) = scent_board();
    scent.deposit(grid, c(2, 2), 0);
    assert_eq!(scent.at(grid, c(2, 2)), SCENT_DEPOSIT_PPM);
}

#[test]
fn the_trail_gets_fainter_the_further_from_the_nest() {
    let (grid, mut scent) = scent_board();
    for step in 0..5u32 {
        scent.deposit(grid, c(2 + step as i32, 2), step);
    }
    let strengths: Vec<u32> = (0..5).map(|step| scent.at(grid, c(2 + step, 2))).collect();
    for pair in strengths.windows(2) {
        assert!(pair[0] > pair[1], "scent must fall along the way: {strengths:?}");
    }
}

#[test]
fn many_faint_traces_never_beat_one_strong_one() {
    let (grid, mut scent) = scent_board();
    let far_out = c(2, 2);
    let next_to_the_nest = c(5, 5);
    for _ in 0..50 {
        scent.deposit(grid, far_out, 20);
    }
    scent.deposit(grid, next_to_the_nest, 0);
    assert!(
        scent.at(grid, next_to_the_nest) > scent.at(grid, far_out),
        "home must smell stronger than a well-trodden spot far away"
    );
}

#[test]
fn walking_again_refreshes_a_fading_trail() {
    let (grid, mut scent) = scent_board();
    let cell = c(2, 2);
    scent.deposit(grid, cell, 0);
    scent.evaporate(grid, after_half_lives(1.0));
    let faded = scent.at(grid, cell);
    scent.deposit(grid, cell, 0);
    assert!(scent.at(grid, cell) > faded);
}

#[test]
fn a_trail_nobody_refreshes_disappears() {
    let (grid, mut scent) = scent_board();
    scent.deposit(grid, c(2, 2), 0);
    scent.evaporate(grid, after_half_lives(8.0));
    assert_eq!(scent.at(grid, c(2, 2)), 0, "what falls under the threshold is cleared, not left as dust");
}

#[test]
fn uphill_points_at_the_strongest_neighbour() {
    let (grid, mut scent) = scent_board();
    let here = c(5, 5);
    scent.deposit(grid, c(6, 5), 6);
    scent.deposit(grid, c(5, 6), 0);
    let (direction, _) = scent.uphill(grid, here).expect("a way uphill");
    assert_eq!(direction, Dir::North);
}

#[test]
fn on_the_peak_there_is_no_way_up() {
    let (grid, mut scent) = scent_board();
    let here = c(5, 5);
    scent.deposit(grid, here, 0);
    scent.deposit(grid, c(6, 5), 6);
    assert!(scent.uphill(grid, here).is_none());
}

#[test]
fn a_trail_under_the_threshold_is_not_a_trail() {
    let (grid, mut scent) = scent_board();
    let here = c(5, 5);
    scent.deposit(grid, c(6, 5), 0);
    scent.evaporate(grid, after_half_lives(5.0));
    assert!(scent.uphill(grid, here).is_none());
}

#[test]
fn strength_is_told_as_a_word() {
    assert_eq!(describe(900_000), "strong");
    assert_eq!(describe(500_000), "clear");
    assert_eq!(describe(100_000), "faint");
}

#[test]
fn a_colony_without_smell_leaves_nothing() {
    let grid = Grid { width: 10, height: 10 };
    let mut scent = Scent::without_any(grid);
    scent.deposit(grid, c(2, 2), 0);
    assert_eq!(scent.at(grid, c(2, 2)), 0);
    assert!(scent.uphill(grid, c(2, 3)).is_none());
}

#[test]
fn off_the_board_is_simply_nothing() {
    let (grid, mut scent) = scent_board();
    scent.deposit(grid, c(-1, 4), 0);
    assert_eq!(scent.at(grid, c(-1, 4)), 0);
    assert_eq!(scent.at(grid, c(99, 99)), 0);
}

#[test]
fn the_trail_falls_by_the_step_decay() {
    let (grid, mut scent) = scent_board();
    scent.deposit(grid, c(1, 1), 0);
    scent.deposit(grid, c(2, 1), 1);
    scent.deposit(grid, c(3, 1), 2);
    assert_eq!(scent.at(grid, c(1, 1)), 1_000_000);
    assert_eq!(scent.at(grid, c(2, 1)), 880_000);
    assert_eq!(scent.at(grid, c(3, 1)), 774_400);
}

#[test]
fn half_a_trail_is_left_after_one_half_life() {
    let (grid, mut scent) = scent_board();
    scent.deposit(grid, c(1, 1), 0);
    scent.evaporate(grid, 500_000);
    assert_eq!(scent.at(grid, c(1, 1)), 500_000);
}

fn centre() -> Cell {
    c(GRID_WIDTH / 2, GRID_HEIGHT / 2)
}

#[test]
fn the_nearest_cell_faces_the_ant() {
    let nest = Nest::default();
    assert_eq!(nest.nearest_cell(centre()), centre());
    let far_east = c(GRID_WIDTH - 1, GRID_HEIGHT / 2);
    let target = nest.nearest_cell(far_east);
    assert!(nest.contains(target));
    assert_eq!(target.x, nest.min.x + nest.size - 1, "its eastern edge");
}

#[test]
fn the_corners_of_the_board_are_not_the_nest() {
    let nest = Nest::default();
    for corner in [c(0, 0), c(GRID_WIDTH - 1, 0), c(0, GRID_HEIGHT - 1), c(GRID_WIDTH - 1, GRID_HEIGHT - 1)] {
        assert!(!nest.contains(corner), "{corner:?}");
    }
}

#[test]
fn the_nest_is_a_square_in_the_middle() {
    let nest = Nest::default();
    assert!(nest.contains(centre()));
    assert_eq!(nest.cells().len(), (nest.size * nest.size) as usize);
    assert_eq!(nest.min, c(29, 13));
    assert!(nest.within(c(40, 16), 6));
    assert!(!nest.within(c(40, 16), 5));
}

fn vision_board() -> (Grid, Occupancy) {
    let grid = Grid { width: 10, height: 10 };
    (grid, Occupancy::new(grid))
}

#[test]
fn an_ant_in_the_open_sees_nothing() {
    let (grid, occupancy) = vision_board();
    assert!(sightings(grid, &occupancy, Nest::default(), &Scent::new(grid), c(5, 5), 3).is_empty());
}

#[test]
fn a_neighbour_is_reported_with_distance_and_direction() {
    let (grid, mut occupancy) = vision_board();
    occupancy.occupy(grid, c(5, 7), Occupant::Ant(1));
    let seen = sightings(grid, &occupancy, Nest::default(), &Scent::new(grid), c(5, 5), 3);
    assert_eq!(seen, vec!["another ant, 2 cells to the north"]);
}

#[test]
fn a_fruit_is_told_apart_from_an_ant() {
    let (grid, mut occupancy) = vision_board();
    occupancy.occupy(grid, c(7, 5), Occupant::Fruit(9));
    let seen = sightings(grid, &occupancy, Nest::default(), &Scent::new(grid), c(5, 5), 3);
    assert_eq!(seen, vec!["a fruit, 2 cells to the east"]);
}

#[test]
fn an_ant_beyond_the_radius_is_invisible() {
    let (grid, mut occupancy) = vision_board();
    occupancy.occupy(grid, c(9, 5), Occupant::Ant(1));
    assert!(sightings(grid, &occupancy, Nest::default(), &Scent::new(grid), c(5, 5), 3).is_empty());
}

#[test]
fn the_edge_is_seen_only_when_it_is_close() {
    let (grid, occupancy) = vision_board();
    let in_the_corner = sightings(grid, &occupancy, Nest::default(), &Scent::new(grid), c(0, 0), 3);
    assert!(in_the_corner.contains(&"the edge of the world, 1 cell to the south".to_string()));
    assert!(in_the_corner.contains(&"the edge of the world, 1 cell to the west".to_string()));
    let one_cell_in = sightings(grid, &occupancy, Nest::default(), &Scent::new(grid), c(1, 1), 3);
    assert!(one_cell_in.contains(&"the edge of the world, 2 cells to the south".to_string()));
    assert!(sightings(grid, &occupancy, Nest::default(), &Scent::new(grid), c(5, 5), 3).is_empty());
}

#[test]
fn the_same_situation_produces_the_same_text() {
    let (grid, mut occupancy) = vision_board();
    occupancy.occupy(grid, c(4, 4), Occupant::Ant(1));
    occupancy.occupy(grid, c(7, 7), Occupant::Ant(2));
    let one = sightings(grid, &occupancy, Nest::default(), &Scent::new(grid), c(5, 5), 1);
    let other = sightings(grid, &occupancy, Nest::default(), &Scent::new(grid), c(8, 8), 1);
    assert_eq!(one, other);
    assert_eq!(one, vec!["another ant, 1 cell to the south-west"]);
}

#[test]
fn a_stale_vacate_never_evicts_somebody_else() {
    let (grid, mut occupancy) = vision_board();
    occupancy.occupy(grid, c(3, 3), Occupant::Ant(4));
    occupancy.vacate(grid, c(3, 3), 5);
    assert_eq!(occupancy.at(grid, c(3, 3)), Some(Occupant::Ant(4)));
    occupancy.vacate(grid, c(3, 3), 4);
    assert_eq!(occupancy.at(grid, c(3, 3)), None);
    assert!(occupancy.is_free(grid, c(3, 3)));
    assert!(!occupancy.is_free(grid, c(10, 3)), "off the board is never free");
}

#[test]
fn offsets_round_to_the_nearest_direction() {
    assert_eq!(Dir::nearest(c(3, 1)), Dir::East);
    assert_eq!(Dir::nearest(c(2, 2)), Dir::NorthEast);
    assert_eq!(Dir::nearest(c(-1, -3)), Dir::South);
    assert_eq!(Dir::nearest(c(-2, 1)), Dir::NorthWest);
    assert_eq!(Dir::nearest(c(0, 0)), Dir::Stay);
}

#[test]
fn equally_near_water_is_named_by_the_first_direction_in_the_compass() {
    let grid = Grid { width: 12, height: 12 };
    let mut occupancy = Occupancy::new(grid);
    occupancy.set_terrain(grid, c(7, 5), ant_colony::grid::Terrain::Water);
    occupancy.set_terrain(grid, c(5, 7), ant_colony::grid::Terrain::Water);
    let seen = sightings(grid, &occupancy, Nest::default(), &Scent::new(grid), c(5, 5), 3);
    assert!(
        seen.contains(&"water, 2 cells to the north \u{2014} no ant can wade through it".to_string()),
        "north comes before east in the compass: {seen:?}"
    );
}
