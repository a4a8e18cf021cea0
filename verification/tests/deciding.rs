use ant_colony::action::Action;
use ant_colony::api::{Answer, ApiError, Question, SystemOneResponse, Usage};
use ant_colony::config::REMEMBERED_DISCARDS;
use ant_colony::decisions::{
    AntId, AntView, Asleep, DecisionSource, DecisionStats, DiscardLog, Exchange, Link, Origin, Outcome, ThinkTimer,
};
use ant_colony::grid::{Cell, Dir, Grid, Occupancy, Occupant};
use ant_colony::jev::{build_request, distribution, read_step, STEP_QUESTION};
use ant_colony::nest::Nest;
use ant_colony::options::{available, Hands};
use ant_colony::questions::DEFAULT_STEP;
use ant_colony::rules::{decide, decide_classic, RuleSource};
use ant_colony::scent::Scent;

fn c(x: i32, y: i32) -> Cell {
    Cell { x, y }
}

fn setup() -> (Grid, Occupancy, Nest) {
    let grid = Grid { width: 12, height: 12 };
    (grid, Occupancy::new(grid), Nest { min: c(5, 5), size: 3 })
}

fn fruit(id: u32) -> Occupant {
    Occupant::Fruit(id)
}

fn is_trail(option: &Action) -> bool {
    matches!(option, Action::FollowScent(_))
}

fn fetches(options: &[Action]) -> Vec<Action> {
    options.iter().copied().filter(|option| matches!(option, Action::Fetch { .. })).collect()
}

fn step(at: Cell, d: Dir) -> Cell {
    let o = d.offset();
    c(at.x + o.x, at.y + o.y)
}

#[test]
fn a_fruit_in_sight_can_be_fetched() {
    let (grid, mut occupancy, nest) = setup();
    occupancy.occupy(grid, c(1, 3), fruit(1));
    let options = available(grid, &occupancy, nest, &Scent::new(grid), c(1, 1), Hands::Empty, 3);
    assert_eq!(fetches(&options), vec![Action::Fetch { fruit: 1, dir: Dir::North, distance: 2 }]);
}

#[test]
fn a_fruit_beyond_the_radius_is_not_offered() {
    let (grid, mut occupancy, nest) = setup();
    occupancy.occupy(grid, c(1, 6), fruit(1));
    let options = available(grid, &occupancy, nest, &Scent::new(grid), c(1, 1), Hands::Empty, 3);
    assert!(fetches(&options).is_empty());
}

#[test]
fn only_the_nearest_fruit_per_direction_is_offered() {
    let (grid, mut occupancy, nest) = setup();
    occupancy.occupy(grid, c(1, 2), fruit(1));
    occupancy.occupy(grid, c(1, 4), fruit(2));
    let options = available(grid, &occupancy, nest, &Scent::new(grid), c(1, 1), Hands::Empty, 3);
    let offered = fetches(&options);
    assert_eq!(offered.len(), 1);
    assert_eq!(offered[0], Action::Fetch { fruit: 1, dir: Dir::North, distance: 1 });
}

#[test]
fn a_carrying_ant_is_offered_no_fruit() {
    let (grid, mut occupancy, nest) = setup();
    occupancy.occupy(grid, c(1, 2), fruit(1));
    let options = available(grid, &occupancy, nest, &Scent::new(grid), c(1, 1), Hands::Fruit, 3);
    assert!(fetches(&options).is_empty());
}

#[test]
fn an_empty_handed_ant_is_never_offered_carry_home() {
    let (grid, occupancy, nest) = setup();
    let options = available(grid, &occupancy, nest, &Scent::new(grid), c(1, 1), Hands::Empty, 3);
    assert!(!options.contains(&Action::CarryHome));
}

#[test]
fn an_empty_handed_ant_is_offered_the_trail() {
    let (grid, occupancy, nest) = setup();
    let at = c(1, 1);
    let mut scent = Scent::new(grid);
    scent.deposit(grid, step(at, Dir::North), 0);
    let options = available(grid, &occupancy, nest, &scent, at, Hands::Empty, 3);
    assert!(options.contains(&Action::FollowScent(Dir::North)));
    assert!(!options.contains(&Action::CarryHome), "the trail is not the same offer as putting a fruit down");
}

#[test]
fn every_option_has_its_own_key() {
    let (grid, mut occupancy, nest) = setup();
    let at = c(1, 1);
    occupancy.occupy(grid, c(1, 3), fruit(1));
    occupancy.occupy(grid, c(3, 1), fruit(2));
    occupancy.occupy(grid, c(3, 3), fruit(3));
    let mut scent = Scent::new(grid);
    scent.deposit(grid, step(at, Dir::North), 0);
    let options = available(grid, &occupancy, nest, &scent, at, Hands::Empty, 3);
    let keys: std::collections::BTreeSet<String> = options.iter().map(|option| option.key()).collect();
    assert!(options.len() > 5, "the situation has to be a crowded one");
    assert_eq!(keys.len(), options.len(), "two options share a key: {keys:?}");
}

#[test]
fn the_trail_key_is_the_same_whichever_way_it_leads() {
    assert_eq!(Action::FollowScent(Dir::North).key(), "follow_scent");
    assert_eq!(Action::FollowScent(Dir::SouthWest).key(), "follow_scent");
    assert!(
        Dir::COMPASS.iter().all(|d| Action::Walk(*d).key() != "follow_scent"),
        "and it must not collide with a compass step"
    );
}

#[test]
fn a_carrier_out_of_sight_is_offered_the_trail() {
    let (grid, occupancy, nest) = setup();
    let at = c(1, 1);
    let mut scent = Scent::new(grid);
    scent.deposit(grid, step(at, Dir::North), 0);
    assert!(!nest.within(at, 3), "the test needs the nest out of sight");
    let options = available(grid, &occupancy, nest, &scent, at, Hands::Fruit, 3);
    assert!(options.contains(&Action::FollowScent(Dir::North)));
    assert!(!options.contains(&Action::CarryHome));
}

#[test]
fn in_sight_of_the_nest_the_trail_is_not_offered() {
    let (grid, occupancy, nest) = setup();
    let at = c(nest.min.x - 1, nest.min.y - 1);
    let mut scent = Scent::new(grid);
    scent.deposit(grid, step(at, Dir::South), 0);
    assert!(nest.within(at, 3), "the test needs the nest in sight");
    let carrying = available(grid, &occupancy, nest, &scent, at, Hands::Fruit, 3);
    assert!(carrying.contains(&Action::CarryHome), "walking in is the move here");
    assert!(!carrying.iter().any(is_trail));
    let searching = available(grid, &occupancy, nest, &scent, at, Hands::Empty, 3);
    assert!(!searching.iter().any(is_trail));
    assert!(
        searching.iter().any(|o| matches!(o, Action::Walk(_))),
        "it can still walk, which is what gets it into the nest"
    );
}

#[test]
fn standing_still_is_the_last_resort_only() {
    let (grid, mut occupancy, nest) = setup();
    let at = c(1, 1);
    let options = available(grid, &occupancy, nest, &Scent::new(grid), at, Hands::Empty, 3);
    assert!(!options.contains(&Action::Wait), "there are ways out");
    for direction in Dir::COMPASS {
        occupancy.occupy(grid, step(at, direction), Occupant::Ant(100));
    }
    let boxed_in = available(grid, &occupancy, nest, &Scent::new(grid), at, Hands::Empty, 3);
    assert_eq!(boxed_in, vec![Action::Wait], "nothing else is possible");
}

#[test]
fn a_plank_carrier_can_only_let_go_or_wait() {
    let (grid, occupancy, nest) = setup();
    let options = available(grid, &occupancy, nest, &Scent::new(grid), c(1, 1), Hands::Plank, 3);
    assert_eq!(options, vec![Action::LetGoPlank, Action::Wait]);
}

#[test]
fn a_plank_in_sight_can_be_taken() {
    let (grid, mut occupancy, nest) = setup();
    occupancy.occupy(grid, c(8, 1), Occupant::Plank(42));
    let options = available(grid, &occupancy, nest, &Scent::new(grid), c(1, 1), Hands::Empty, 3);
    assert!(options.contains(&Action::TakePlank { plank: 42, dir: Dir::East, distance: 7 }));
    let carrying = available(grid, &occupancy, nest, &Scent::new(grid), c(1, 1), Hands::Fruit, 3);
    assert!(!carrying.iter().any(|o| matches!(o, Action::TakePlank { .. })), "hands are full");
}

fn view(options: Vec<Action>) -> AntView<'static> {
    AntView { id: AntId(0), order: "", instructions: DEFAULT_STEP, options, sightings: Vec::new(), carrying: false }
}

fn fetch(id: u32, dir: Dir, distance: i32) -> Action {
    Action::Fetch { fruit: id, dir, distance }
}

#[test]
fn rules_carrying_beats_everything() {
    let decision = decide(&view(vec![Action::CarryHome, Action::Walk(Dir::North), Action::Wait]));
    assert_eq!(decision, Action::CarryHome);
}

#[test]
fn rules_the_nearest_fruit_wins() {
    let far = fetch(1, Dir::North, 3);
    let near = fetch(2, Dir::South, 1);
    let decision = decide(&view(vec![far, near, Action::Wait]));
    assert_eq!(decision, near);
}

#[test]
fn the_nest_in_sight_beats_the_trail() {
    let decision = decide(&view(vec![Action::FollowScent(Dir::West), Action::CarryHome, Action::Wait]));
    assert_eq!(decision, Action::CarryHome);
}

#[test]
fn a_carrier_out_of_sight_follows_the_trail() {
    let decision = decide(&view(vec![Action::Walk(Dir::North), Action::FollowScent(Dir::West), Action::Wait]));
    assert_eq!(decision, Action::FollowScent(Dir::West));
}

#[test]
fn rules_with_nothing_to_do_it_wanders() {
    let options = vec![Action::Walk(Dir::North), Action::Wait];
    let decision = decide(&view(options.clone()));
    assert!(options.contains(&decision));
}

#[test]
fn classic_carrying_beats_everything() {
    let decision = decide_classic(&view(vec![Action::CarryHome, Action::Walk(Dir::North), Action::Wait]));
    assert_eq!(decision, Action::CarryHome);
}

#[test]
fn classic_the_nearest_fruit_wins() {
    let far = fetch(1, Dir::North, 3);
    let near = fetch(2, Dir::South, 1);
    let decision = decide_classic(&view(vec![far, near, Action::Wait]));
    assert_eq!(decision, near);
}

#[test]
fn classic_with_nothing_to_do_it_wanders() {
    let options = vec![Action::Walk(Dir::North), Action::Wait];
    let decision = decide_classic(&view(options.clone()));
    assert!(options.contains(&decision));
}

#[test]
fn a_view_with_no_options_waits() {
    assert_eq!(decide(&view(Vec::new())), Action::Wait);
}

fn jev_view<'a>(order: &'a str, options: Vec<Action>, sightings: Vec<String>) -> AntView<'a> {
    AntView { id: AntId(7), order, instructions: DEFAULT_STEP, options, sightings, carrying: false }
}

fn keys_of(question: &Question) -> Vec<String> {
    match question {
        Question::Choice { criteria, .. } => criteria.iter().map(|(key, _)| key.clone()).collect(),
        Question::Noul { .. } => Vec::new(),
    }
}

#[test]
fn the_request_offers_only_what_the_ant_can_reach() {
    let request = build_request(&jev_view("", vec![Action::Walk(Dir::East), Action::Wait], Vec::new()));
    assert_eq!(request.questions.len(), 1);
    assert_eq!(request.questions[0].0, STEP_QUESTION);
    let keys = keys_of(&request.questions[0].1);
    assert!(keys.contains(&"east".to_string()));
    assert!(keys.contains(&"stay".to_string()));
    assert!(!keys.contains(&"north".to_string()), "north was blocked");
}

#[test]
fn the_state_never_carries_coordinates_or_an_empty_order() {
    let request = build_request(&jev_view(
        "   ",
        vec![Action::Walk(Dir::East)],
        vec!["another ant, 1 cell to the north".to_string()],
    ));
    assert!(request.state.order_from_the_ant_queen.is_none());
    let text = format!("{:?}", request.state);
    assert!(!text.contains("\"x\""), "no absolute coordinates: {text}");
    assert!(!text.contains("\"y\""), "no absolute coordinates: {text}");
    assert_eq!(request.state.nearby, vec!["another ant, 1 cell to the north".to_string()]);
}

#[test]
fn the_order_goes_out_trimmed_and_the_load_is_named() {
    let mut ant = jev_view("  go east \n", vec![Action::Walk(Dir::East)], Vec::new());
    ant.carrying = true;
    let request = build_request(&ant);
    assert_eq!(request.state.order_from_the_ant_queen.as_deref(), Some("go east"));
    assert_eq!(request.state.carrying.as_deref(), Some("a fruit"));
    assert_eq!(request.state.nearby, vec!["nothing within sight".to_string()]);
    assert_eq!(request.state.vision, "This ant sees 3 cells in every direction.");
    assert_eq!(request.model, "jev-latest");
}

fn answer(choice: &str, confidence: u32) -> SystemOneResponse {
    SystemOneResponse {
        model: "jev-1.13.0".to_string(),
        answers: vec![(
            "step".to_string(),
            Answer::Choice {
                choice: choice.to_string(),
                probabilities: vec![(choice.to_string(), confidence)],
                confidence,
            },
        )],
        usage: Usage { input_tokens: 1, output_tokens: 1 },
    }
}

fn spread(pairs: &[(&str, u32)], choice: &str, confidence: u32) -> SystemOneResponse {
    SystemOneResponse {
        model: "jev-1.13.0".to_string(),
        answers: vec![(
            "step".to_string(),
            Answer::Choice {
                choice: choice.to_string(),
                probabilities: pairs.iter().map(|(key, weight)| (key.to_string(), *weight)).collect(),
                confidence,
            },
        )],
        usage: Usage { input_tokens: 180, output_tokens: 1 },
    }
}

#[test]
fn the_distribution_comes_back_sorted() {
    let response = spread(&[("east", 200_000), ("north", 620_000), ("stay", 180_000)], "north", 500_000);
    let sorted = distribution(&response);
    assert_eq!(sorted.iter().map(|(key, _)| key.as_str()).collect::<Vec<_>>(), ["north", "east", "stay"]);
}

#[test]
fn a_tie_is_broken_the_same_way_every_time() {
    let response = spread(&[("west", 250_000), ("east", 250_000), ("north", 500_000)], "north", 400_000);
    let sorted = distribution(&response);
    assert_eq!(sorted.iter().map(|(key, _)| key.as_str()).collect::<Vec<_>>(), ["north", "east", "west"]);
}

#[test]
fn a_refused_answer_still_has_its_distribution() {
    let response = spread(&[("east", 340_000), ("north", 330_000), ("west", 330_000)], "east", 50_000);
    assert!(read_step(&response, &[Action::Walk(Dir::East)]).is_err());
    assert_eq!(distribution(&response).len(), 3);
}

#[test]
fn a_confident_offered_answer_becomes_a_move() {
    let offered = [Action::Walk(Dir::East), Action::Wait];
    let result = read_step(&answer("east", 990_000), &offered);
    assert_eq!(result, Ok((Action::Walk(Dir::East), 990_000)));
}

#[test]
fn an_option_that_was_never_offered_is_refused() {
    let offered = [Action::Walk(Dir::East), Action::Wait];
    let result = read_step(&answer("north", 990_000), &offered);
    assert_eq!(result, Err("'north' was never offered to this ant".to_string()));
}

#[test]
fn an_answer_close_to_chance_is_refused() {
    let offered = [Action::Walk(Dir::East), Action::Wait];
    let result = read_step(&answer("east", 180_000), &offered);
    assert_eq!(result, Err("confidence 0.18 is too close to chance (below 0.22)".to_string()));
}

#[test]
fn a_nuanced_but_real_preference_is_kept() {
    let offered = [Action::Walk(Dir::East), Action::Wait];
    let result = read_step(&answer("east", 330_000), &offered);
    assert_eq!(result, Ok((Action::Walk(Dir::East), 330_000)));
}

#[test]
fn fetching_is_read_back_from_its_key() {
    let fetch = Action::Fetch { fruit: 3, dir: Dir::NorthEast, distance: 2 };
    let offered = [fetch, Action::Wait];
    let result = read_step(&answer("fetch_north_east", 900_000), &offered);
    assert_eq!(result, Ok((fetch, 900_000)));
}

#[test]
fn carrying_home_empty_handed_is_refused() {
    let offered = [Action::Walk(Dir::East), Action::Wait];
    assert!(read_step(&answer("carry_home", 990_000), &offered).is_err());
}

#[test]
fn a_direction_that_does_not_exist_is_refused() {
    assert!(read_step(&answer("upwards", 990_000), &[Action::Walk(Dir::East)]).is_err());
}

#[test]
fn an_answer_without_a_step_is_refused() {
    let mut response = answer("east", 990_000);
    response.answers[0].0 = "urgency".to_string();
    assert_eq!(
        read_step(&response, &[Action::Walk(Dir::East)]),
        Err("no choice answer under 'step'".to_string())
    );
}

#[test]
fn without_a_key_the_lamp_is_red_and_says_why() {
    let link = Asleep::default().link();
    assert!(matches!(link, Link::Down(_)));
    assert!(link.detail().contains("TYPESAFE_API_KEY"), "the detail must name what is missing, got: {}", link.detail());
}

#[test]
fn a_source_without_a_line_reports_untried() {
    assert_eq!(RuleSource::default().link(), Link::Untried);
}

fn thrown_away(ant: u32) -> Exchange {
    Exchange {
        ant: AntId(ant),
        order: String::new(),
        carrying: false,
        sightings: Vec::new(),
        instructions: DEFAULT_STEP.to_string(),
        request: "{}".to_string(),
        response: Some("{}".to_string()),
        offered: Vec::new(),
        outcome: Outcome::Refused {
            reason: "0.18 is too close to chance".to_string(),
            probabilities: Vec::new(),
            latency_ms: 700,
        },
    }
}

#[test]
fn the_discard_log_keeps_the_newest_few() {
    let mut log = DiscardLog::default();
    for ant in 0..(REMEMBERED_DISCARDS as u32 + 4) {
        log.remember(thrown_away(ant));
    }
    assert_eq!(log.0.len(), REMEMBERED_DISCARDS);
    assert_eq!(log.0.front().expect("not empty").ant, AntId(REMEMBERED_DISCARDS as u32 + 3), "the newest one is at the front");
}

#[test]
fn a_refused_exchange_is_not_a_used_one() {
    assert!(!thrown_away(0).was_used());
}

#[test]
fn status_codes_become_the_documented_errors() {
    assert!(matches!(ApiError::from_status(401, String::new()), ApiError::Unauthorized));
    assert!(matches!(ApiError::from_status(422, "bad".into()), ApiError::Invalid(_)));
    assert!(ApiError::from_status(429, String::new()).is_transient());
    assert!(ApiError::from_status(529, String::new()).is_transient());
    assert!(!ApiError::from_status(422, String::new()).is_transient());
}

#[test]
fn a_million_input_tokens_cost_four_cents() {
    let usage = Usage { input_tokens: 1_000_000, output_tokens: 999 };
    assert_eq!(usage.cost_nano_usd(), 42_000_000);
}

#[test]
fn other_statuses_keep_their_number_and_body() {
    match ApiError::from_status(503, "later".to_string()) {
        ApiError::Status(status, body) => {
            assert_eq!(status, 503);
            assert_eq!(body, "later");
        }
        other => panic!("expected a plain status, got {other:?}"),
    }
    assert_eq!(ApiError::from_status(503, "later".to_string()).message(), "HTTP 503: later");
    assert!(ApiError::check_status(true, 200, String::new()).is_ok());
    assert!(matches!(ApiError::check_status(false, 401, String::new()), Err(ApiError::Unauthorized)));
}

#[test]
fn the_bill_follows_the_input_tokens() {
    let mut stats = DecisionStats::default();
    stats.record(&Origin::Jev { confidence: 900_000, latency_ms: 700, input_tokens: 180 });
    stats.record(&Origin::Jev { confidence: 900_000, latency_ms: 500, input_tokens: 220 });
    stats.record(&Origin::Rules);
    assert_eq!(stats.from_jev, 2);
    assert_eq!(stats.from_rules, 1);
    assert_eq!(stats.this_level, 3);
    assert_eq!(stats.average_latency_ms(), 600);
    assert_eq!(stats.cost_nano_usd(), 400 * 42);
    assert_eq!(stats.projected_nano_usd_per_hour(20, 2000), 200 * 20 * 1800 * 42);
    stats.start_new_level();
    assert_eq!(stats.this_level, 0);
    assert_eq!(stats.input_tokens, 400);
}

#[test]
fn the_timers_are_spread_over_the_interval() {
    let first = ThinkTimer::staggered(0, 20);
    let tenth = ThinkTimer::staggered(10, 20);
    assert_eq!(first.elapsed_ms, 0);
    assert_eq!(tenth.elapsed_ms, 1000);
    let mut timer = ThinkTimer::staggered(19, 20);
    assert!(!timer.tick(50));
    assert!(timer.tick(50));
    assert_eq!(timer.elapsed_ms, 0);
}

fn one_ant<'a>(options: Vec<Action>) -> AntView<'a> {
    AntView { id: AntId(3), order: "go east", instructions: DEFAULT_STEP, options, sightings: Vec::new(), carrying: false }
}

fn live_source() -> ant_colony::jev::JevSource {
    ant_colony::jev::JevSource::new(ant_colony::api::Client::new("https://example.invalid".to_string(), "SECRET-REDACTED".to_string()))
}

#[test]
fn a_delivered_answer_becomes_a_move_and_an_exchange() {
    let mut source = live_source();
    source.request(&one_ant(vec![Action::Walk(Dir::East), Action::Wait]));
    let outbox = source.take_outbox();
    assert_eq!(outbox.len(), 1);
    assert_eq!(source.link(), Link::Untried);
    let (ticket, _) = &outbox[0];
    source.deliver(
        *ticket,
        ant_colony::jev::Arrival::Reply { response: answer("east", 900_000), latency_ms: 640, body: "{}".to_string() },
    );
    let moves = source.poll();
    assert_eq!(moves.len(), 1);
    assert_eq!(moves[0].id, AntId(3));
    assert_eq!(moves[0].action, Action::Walk(Dir::East));
    assert_eq!(moves[0].origin, Origin::Jev { confidence: 900_000, latency_ms: 640, input_tokens: 1 });
    assert_eq!(source.link(), Link::Live);
    let exchanges = source.drain_exchanges();
    assert_eq!(exchanges.len(), 1);
    assert!(exchanges[0].was_used());
    assert_eq!(exchanges[0].order, "go east");
    assert_eq!(source.discarded(), 0);
}

#[test]
fn a_failed_request_is_counted_and_turns_the_lamp_red() {
    let mut source = live_source();
    source.request(&one_ant(vec![Action::Walk(Dir::East)]));
    let (ticket, _) = source.take_outbox().remove(0);
    source.deliver(ticket, ant_colony::jev::Arrival::Error(ApiError::RateLimited));
    assert!(source.poll().is_empty());
    assert_eq!(source.discarded(), 1);
    assert_eq!(source.link(), Link::Down("429 \u{2014} rate limited (1200 requests per minute)".to_string()));
    let exchanges = source.drain_exchanges();
    assert_eq!(exchanges.len(), 1);
    assert!(!exchanges[0].was_used());
}

#[test]
fn an_answer_that_never_comes_is_given_up_on() {
    let mut source = live_source();
    source.request(&one_ant(vec![Action::Walk(Dir::East)]));
    source.take_outbox();
    source.set_clock(9_999);
    assert!(source.poll().is_empty());
    assert_eq!(source.discarded(), 0, "still within the deadline");
    source.set_clock(10_000);
    assert!(source.poll().is_empty());
    assert_eq!(source.discarded(), 1);
    assert_eq!(source.link(), Link::Down("no answer before the deadline".to_string()));
}

#[test]
fn too_many_questions_in_the_air_are_dropped() {
    let mut source = live_source();
    for _ in 0..ant_colony::config::MAX_IN_FLIGHT {
        source.request(&one_ant(vec![Action::Wait]));
    }
    assert_eq!(source.discarded(), 0);
    source.request(&one_ant(vec![Action::Wait]));
    assert_eq!(source.discarded(), 1);
    assert_eq!(source.take_outbox().len(), ant_colony::config::MAX_IN_FLIGHT);
}

#[test]
fn a_refused_answer_lands_in_the_log_with_its_reason() {
    let mut source = live_source();
    source.request(&one_ant(vec![Action::Walk(Dir::East)]));
    let (ticket, _) = source.take_outbox().remove(0);
    source.deliver(
        ticket,
        ant_colony::jev::Arrival::Reply { response: answer("north", 990_000), latency_ms: 500, body: "{}".to_string() },
    );
    assert!(source.poll().is_empty());
    let fresh = source.drain_exchanges();
    let mut last = ant_colony::colony::LastExchanges::default();
    let mut log = DiscardLog::default();
    ant_colony::colony::record_exchanges(fresh, &vec![AntId(3)], &mut last, &mut log);
    assert_eq!(log.0.len(), 1);
    assert_eq!(ant_colony::panels::why(&log.0[0]), "'north' was never offered to this ant");
    assert!(last.get(AntId(3)).is_some());
    assert!(last.get(AntId(4)).is_none());
}

#[test]
fn the_body_recorded_for_a_ticket_goes_into_its_exchange() {
    let mut source = live_source();
    source.request(&one_ant(vec![Action::Walk(Dir::East)]));
    let (ticket, _) = source.take_outbox().remove(0);
    source.record_body(ticket, "{ \"model\": \"jev-1.13.0\" }".to_string());
    source.record_body(ticket + 1, "not this one".to_string());
    source.deliver(
        ticket,
        ant_colony::jev::Arrival::Reply { response: answer("east", 900_000), latency_ms: 10, body: "{}".to_string() },
    );
    assert_eq!(source.poll().len(), 1);
    let exchanges = source.drain_exchanges();
    assert_eq!(exchanges.len(), 1);
    assert_eq!(exchanges[0].request, "{ \"model\": \"jev-1.13.0\" }");
    assert_eq!(exchanges[0].response, Some("{}".to_string()));
    assert!(source.drain_exchanges().is_empty());
}

#[test]
fn a_reply_beats_a_failure_in_the_same_poll() {
    let mut source = live_source();
    source.request(&one_ant(vec![Action::Walk(Dir::East)]));
    source.request(&one_ant(vec![Action::Walk(Dir::East)]));
    let outbox = source.take_outbox();
    assert_eq!(outbox.len(), 2);
    source.deliver(
        outbox[0].0,
        ant_colony::jev::Arrival::Reply { response: answer("east", 900_000), latency_ms: 10, body: "{}".to_string() },
    );
    source.deliver(outbox[1].0, ant_colony::jev::Arrival::Error(ApiError::Overloaded));
    let moves = source.poll();
    assert_eq!(moves.len(), 1);
    assert_eq!(source.link(), Link::Live);
    let exchanges = source.drain_exchanges();
    assert_eq!(exchanges.len(), 2);
    assert!(exchanges[0].was_used());
    assert!(!exchanges[1].was_used());
}

#[test]
fn a_red_does_not_replace_the_lamp_while_others_are_still_in_the_air() {
    let mut source = live_source();
    source.request(&one_ant(vec![Action::Walk(Dir::East)]));
    source.request(&one_ant(vec![Action::Walk(Dir::East)]));
    let outbox = source.take_outbox();
    source.deliver(outbox[0].0, ant_colony::jev::Arrival::Error(ApiError::Overloaded));
    assert!(source.poll().is_empty());
    assert_eq!(source.link(), Link::Untried);
    assert_eq!(source.discarded(), 1);
}

#[test]
fn the_inspector_keeps_each_ants_latest_exchange() {
    let mut source = live_source();
    source.request(&one_ant(vec![Action::Walk(Dir::East)]));
    source.request(&one_ant(vec![Action::Walk(Dir::East)]));
    let outbox = source.take_outbox();
    source.deliver(outbox[0].0, ant_colony::jev::Arrival::Error(ApiError::Overloaded));
    source.deliver(
        outbox[1].0,
        ant_colony::jev::Arrival::Reply { response: answer("east", 900_000), latency_ms: 10, body: "{}".to_string() },
    );
    source.poll();
    let fresh = source.drain_exchanges();
    let mut last = ant_colony::colony::LastExchanges::default();
    let mut log = DiscardLog::default();
    ant_colony::colony::record_exchanges(fresh, &vec![AntId(3)], &mut last, &mut log);
    let kept = last.get(AntId(3)).unwrap();
    assert!(kept.was_used());
    assert_eq!(log.0.len(), 1);
    assert!(!log.0[0].was_used());
}

#[test]
fn an_answer_after_a_failure_in_the_same_poll_turns_the_lamp_green() {
    let mut source = live_source();
    source.request(&one_ant(vec![Action::Walk(Dir::East)]));
    source.request(&one_ant(vec![Action::Walk(Dir::East)]));
    let outbox = source.take_outbox();
    source.deliver(outbox[0].0, ant_colony::jev::Arrival::Error(ApiError::Overloaded));
    source.deliver(
        outbox[1].0,
        ant_colony::jev::Arrival::Reply { response: answer("east", 900_000), latency_ms: 10, body: "{}".to_string() },
    );
    assert_eq!(source.poll().len(), 1);
    assert_eq!(source.link(), Link::Live);
}

#[test]
fn a_request_still_waiting_keeps_what_its_ant_was_offered() {
    let mut source = live_source();
    source.request(&one_ant(vec![Action::Walk(Dir::East)]));
    source.request(&one_ant(vec![Action::Walk(Dir::North)]));
    let outbox = source.take_outbox();
    source.deliver(
        outbox[0].0,
        ant_colony::jev::Arrival::Reply { response: answer("east", 900_000), latency_ms: 10, body: "{}".to_string() },
    );
    assert_eq!(source.poll().len(), 1);
    source.deliver(
        outbox[1].0,
        ant_colony::jev::Arrival::Reply { response: answer("north", 900_000), latency_ms: 10, body: "{}".to_string() },
    );
    let moves = source.poll();
    assert_eq!(moves.len(), 1);
    assert_eq!(moves[0].action, Action::Walk(Dir::North));
}

#[test]
fn a_reply_body_that_parses_is_indented_for_reading() {
    let shown = ant_colony::jev::readable_body("{\"a\":1,\"b\":[2,3]}");
    assert_eq!(shown, "{\n  \"a\": 1,\n  \"b\": [\n    2,\n    3\n  ]\n}");
}

#[test]
fn a_reply_body_that_does_not_parse_is_shown_as_it_came() {
    assert_eq!(ant_colony::jev::readable_body("not json {"), "not json {");
    assert_eq!(ant_colony::jev::readable_body(""), "");
}

#[test]
fn the_shown_body_is_the_indented_text_where_there_is_one() {
    assert_eq!(ant_colony::jev::shown_body("{\"a\":1}", Some("indented".to_string())), "indented");
    assert_eq!(ant_colony::jev::shown_body("{\"a\":1}", None), "{\"a\":1}");
}

#[test]
fn the_exchange_keeps_the_reply_body_made_readable() {
    let mut source = live_source();
    source.request(&one_ant(vec![Action::Walk(Dir::East), Action::Wait]));
    let (ticket, _) = source.take_outbox().remove(0);
    source.deliver(
        ticket,
        ant_colony::jev::Arrival::Reply {
            response: answer("east", 900_000),
            latency_ms: 20,
            body: "{\"model\":\"jev\"}".to_string(),
        },
    );
    assert_eq!(source.poll().len(), 1);
    let exchanges = source.drain_exchanges();
    assert_eq!(exchanges.len(), 1);
    assert_eq!(exchanges[0].response, Some("{\n  \"model\": \"jev\"\n}".to_string()));
}
