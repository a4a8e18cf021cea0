use ant_colony::action::Action;
use ant_colony::api::usable_key;
use ant_colony::bar::{order_hint, status_line, KeyDraft, LevelList, OrderChange, OrderDraft, Task};
use ant_colony::decisions::{AntId, DecisionStats, Exchange, Outcome};
use ant_colony::grid::Dir;
use ant_colony::hud::{ant_tint, decisions_text, deciding, intent_label, latency_text, CLASSIC_RGB, SELECTED_RGB};
use ant_colony::inspector::{title, window_lines, Tab, Tone};
use ant_colony::panels::{discard_line, top_weights_line, OrderHistory, QuestionDraft};
use ant_colony::questions::{Questions, QUESTIONS_PATH};
use ant_colony::world::LastDecision;

fn exchange(outcome: Outcome, response: Option<String>) -> Exchange {
    Exchange {
        ant: AntId(7),
        order: "go east".to_string(),
        carrying: false,
        sightings: vec!["a fruit, 2 cells to the east".to_string()],
        instructions: "Which single step?".to_string(),
        request: "{\"model\":\"jev-latest\"}".to_string(),
        response,
        offered: vec![
            ("east".to_string(), "walk one cell east".to_string()),
            ("wait".to_string(), "stay where you are".to_string()),
        ],
        outcome,
    }
}

fn texts(exchange: Option<&Exchange>, tab: Tab) -> Vec<String> {
    window_lines(exchange, tab).into_iter().map(|line| line.text).collect()
}

#[test]
fn saying_an_order_trims_it_remembers_it_and_clears_the_field() {
    let mut history = OrderHistory::default();
    let mut draft = OrderDraft("  go east \n".to_string());
    match draft.say(&mut history) {
        Some(OrderChange::Say(said)) => assert_eq!(said, "go east"),
        _ => panic!("the order was not said"),
    }
    assert_eq!(draft.0, "");
    assert_eq!(history.0, vec!["go east".to_string()]);
}

#[test]
fn an_empty_field_says_nothing() {
    let mut history = OrderHistory::default();
    let mut draft = OrderDraft("   ".to_string());
    assert!(draft.say(&mut history).is_none());
    assert_eq!(draft.0, "   ");
    assert!(history.0.is_empty());
    assert!(matches!(draft.say_nothing(), OrderChange::Silence));
    assert_eq!(draft.0, "");
}

#[test]
fn the_status_line_has_three_states() {
    assert_eq!(status_line(false, ""), "The colony waits in the nest. Nothing is asked until the queen speaks.");
    assert_eq!(status_line(true, ""), "No order \u{2014} every ant decides on its own.");
    assert_eq!(status_line(true, "go east"), "The colony has heard: \"go east\"");
    assert_eq!(order_hint(false), "say the first word \u{2014} until then nothing happens");
    assert_eq!(order_hint(true), "tell the colony what to do");
}

#[test]
fn the_task_line_counts_fruit_home() {
    let open = Task { briefing: "Bring three home.", stored: 1, target: 3, solved: false };
    assert_eq!(open.lines(), vec!["Bring three home.".to_string(), "1 of 3 fruits home.".to_string()]);
    let done = Task { briefing: "Bring three home.", stored: 3, target: 3, solved: true };
    assert_eq!(done.lines(), vec!["Solved \u{2014} 3 of 3 fruits home.".to_string()]);
}

#[test]
fn the_picker_numbers_levels_from_one_and_lights_the_running_one() {
    let names = vec!["The river".to_string(), "Two banks".to_string()];
    let list = LevelList { names: &names, playing: Some("Two banks") };
    assert_eq!(
        list.entries(),
        vec![
            ("Open field".to_string(), false),
            ("1. The river".to_string(), false),
            ("2. Two banks".to_string(), true),
        ]
    );
    let field = LevelList { names: &names, playing: None };
    assert!(field.entries()[0].1);
}

#[test]
fn a_typed_key_is_trimmed_and_taken_only_once() {
    let mut draft = KeyDraft { text: "  tsk-123 ".to_string(), visible: true };
    assert!(draft.has_key());
    assert_eq!(draft.commit(), Some("tsk-123".to_string()));
    assert_eq!(draft.text, "");
    assert!(draft.visible);
    assert!(!draft.has_key());
    assert_eq!(draft.commit(), None);
    assert_eq!(usable_key(" \t "), None);
    assert_eq!(usable_key(" key\n"), Some("key".to_string()));
}

#[test]
fn a_question_is_asked_only_when_it_says_something_new() {
    let questions = Questions { step: "Which step?".to_string() };
    let mut draft = QuestionDraft::starting_from(&questions);
    assert!(!draft.can_ask("Which step?"));
    assert_eq!(draft.ask("Which step?"), None);
    assert_eq!(draft.note, "");
    draft.text = "  Which single step? ".to_string();
    assert!(draft.can_ask(" Which step? "));
    assert_eq!(draft.ask("Which step?"), Some("Which single step?".to_string()));
    assert_eq!(draft.note, "In force \u{2014} every ant is being asked again.");
    draft.text = "   ".to_string();
    assert!(!draft.can_ask("Which step?"));
}

#[test]
fn reloading_the_question_takes_what_was_read_or_says_why_not() {
    let mut draft = QuestionDraft::starting_from(&Questions { step: "old".to_string() });
    let read = Ok(Questions { step: "new".to_string() });
    assert_eq!(draft.reloaded(read), Some("new".to_string()));
    assert_eq!(draft.text, "new");
    assert_eq!(draft.note, format!("Read from {QUESTIONS_PATH}."));
    assert_eq!(draft.reloaded(Err("no such file".to_string())), None);
    assert_eq!(draft.text, "new");
    assert_eq!(draft.note, "no such file");
}

#[test]
fn the_bench_names_the_ant_and_the_top_three_weights() {
    let refused = exchange(
        Outcome::Refused {
            reason: "confidence 0.10 is too close to chance".to_string(),
            probabilities: vec![
                ("east".to_string(), 350_000),
                ("wait".to_string(), 340_000),
                ("north".to_string(), 200_000),
                ("south".to_string(), 110_000),
            ],
            latency_ms: 400,
        },
        Some("{}".to_string()),
    );
    assert_eq!(discard_line(&refused), "Ant 07 \u{2014} confidence 0.10 is too close to chance");
    assert_eq!(
        top_weights_line(&refused),
        Some("   east 0.35  \u{b7}  wait 0.34  \u{b7}  north 0.20".to_string())
    );
    let failed = exchange(Outcome::Failed { reason: "no answer".to_string() }, None);
    assert_eq!(top_weights_line(&failed), None);
    assert_eq!(title(AntId(12)), "Ant 12");
}

#[test]
fn the_inspector_reads_a_taken_answer() {
    let taken = exchange(
        Outcome::Taken {
            chosen: "east".to_string(),
            confidence: 905_000,
            probabilities: vec![("east".to_string(), 930_000), ("north".to_string(), 70_000)],
            latency_ms: 640,
            input_tokens: 120,
        },
        Some("{}".to_string()),
    );
    let lines = window_lines(Some(&taken), Tab::Read);
    let shown: Vec<&str> = lines.iter().map(|line| line.text.as_str()).collect();
    assert!(shown.contains(&"  \"go east\""));
    assert!(shown.contains(&"  \u{b7} a fruit, 2 cells to the east"));
    assert!(shown.contains(&"The options it was given (2)"));
    assert!(shown.contains(&"east \u{2014} walk one cell east"));
    assert!(shown.contains(&"confidence 0.91 \u{b7} usage.input_tokens 120"));
    assert!(shown.contains(&"640 ms, measured around the request"));
    let chosen = lines.iter().find(|line| line.text == "\u{2192} east  0.93").unwrap();
    assert_eq!(chosen.tone, Tone::Chosen);
    assert_eq!(chosen.bar, Some(930_000));
    let never = lines.iter().find(|line| line.text == "north  0.07  (never offered)").unwrap();
    assert_eq!(never.tone, Tone::Refused);
    assert!(!shown.contains(&"  \"a fruit\""));
}

#[test]
fn the_inspector_shows_the_raw_bodies_and_what_failed() {
    let failed = exchange(Outcome::Failed { reason: "429".to_string() }, None);
    assert_eq!(
        texts(Some(&failed), Tab::Raw),
        vec![
            "POST /v1/systemone".to_string(),
            "Request body".to_string(),
            "{\"model\":\"jev-latest\"}".to_string(),
            "Response body".to_string(),
            "Nothing came back \u{2014} 429".to_string(),
        ]
    );
    assert_eq!(texts(Some(&failed), Tab::Read).last().unwrap(), "Nothing came back \u{2014} 429");
    assert_eq!(texts(None, Tab::Read)[0], "Nothing asked of this ant yet.");
}

#[test]
fn the_top_bar_names_the_source_only_once_the_queen_has_spoken() {
    assert_eq!(deciding(true, "Jev"), "Deciding: Jev");
    assert_eq!(deciding(false, "Jev"), "Deciding: nobody yet \u{2014} the queen has not spoken");
    let mut stats = DecisionStats::default();
    stats.from_jev = 4;
    stats.discarded = 1;
    stats.latency_sum_ms = 2_000;
    assert_eq!(decisions_text(&stats), "4 decisions from Jev, 1 discarded");
    assert_eq!(latency_text(&stats), "500 ms average");
}

#[test]
fn selection_wins_over_the_confidence_colour() {
    assert_eq!(ant_tint(true, false, Some(900_000)), Some(SELECTED_RGB));
    assert_eq!(ant_tint(false, false, Some(900_000)), None);
    assert_eq!(ant_tint(false, true, Some(900_000)), Some((120, 220, 130)));
    assert_eq!(ant_tint(false, true, Some(400_000)), Some((232, 208, 110)));
    assert_eq!(ant_tint(false, true, None), Some(CLASSIC_RGB));
}

#[test]
fn the_label_over_an_ant_says_what_it_chose_and_how_sure() {
    assert!(intent_label(LastDecision { action: None, confidence: None }).is_none());
    let sure = intent_label(LastDecision { action: Some(Action::Walk(Dir::East)), confidence: Some(990_000) }).unwrap();
    assert_eq!(sure, ("east 0.99".to_string(), (120, 220, 130)));
    let classic = intent_label(LastDecision { action: Some(Action::CarryHome), confidence: None }).unwrap();
    assert_eq!(classic, ("home classic".to_string(), CLASSIC_RGB));
}
