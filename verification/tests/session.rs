use gofsh::game::Game;
use gofsh::session::Reply;

fn strings(names: &[&str]) -> Vec<String> {
    names.iter().map(|s| s.to_string()).collect()
}

fn table_game() -> Game {
    Game {
        commands: strings(&["ls", "cat"]),
        draw_pile: strings(&["cat", "cat"]),
        my_hand: strings(&["ls", "ls", "cat"]),
        other_hand: strings(&["cat"]),
    }
}

#[test]
fn step_help_and_unrecognized_show_help() {
    let mut g = table_game();
    for line in ["help", "frobnicate now", ""] {
        match g.step(line) {
            Reply::Message { text } => assert_eq!(text, "gofsh: [insert help]"),
            other => panic!("expected the help line, got {other:?}"),
        }
    }
    assert_eq!(g.my_hand, strings(&["ls", "ls", "cat"]));
}

#[test]
fn step_hand_pages_the_counted_hand() {
    let mut g = table_game();
    match g.step("hand\n") {
        Reply::ShowHand { text } => assert_eq!(text, "     2 ls\n     1 cat"),
        other => panic!("expected the hand table, got {other:?}"),
    }
}

#[test]
fn step_run_authorizes_only_a_double() {
    let mut g = table_game();
    match g.step("run ls -la\n") {
        Reply::Execute { command_line } => assert_eq!(command_line, "ls -la\n"),
        other => panic!("expected an execution, got {other:?}"),
    }
    match g.step("run cat notes.txt") {
        Reply::Message { text } => assert_eq!(text, "gofsh: You only have one of that card."),
        other => panic!("expected a rejection, got {other:?}"),
    }
    match g.step("run grep") {
        Reply::Message { text } => assert_eq!(text, "gofsh: You don't have that card."),
        other => panic!("expected a rejection, got {other:?}"),
    }
    match g.step("run") {
        Reply::Message { text } => assert_eq!(text, "gofsh: Missing command."),
        other => panic!("expected a rejection, got {other:?}"),
    }
    assert_eq!(g.my_hand, strings(&["ls", "ls", "cat"]));
}

#[test]
fn step_ask_reports_the_transfer() {
    let mut g = table_game();
    match g.step("ask cat\n") {
        Reply::Message { text } => assert_eq!(text, "gofsh: You received 1 copy of cat"),
        other => panic!("expected a transfer report, got {other:?}"),
    }
    assert_eq!(g.my_hand, strings(&["ls", "ls", "cat", "cat"]));
    assert!(g.other_hand.is_empty());
}

#[test]
fn step_ask_unknown_name_is_no_such_card() {
    let mut g = table_game();
    match g.step("ask doom") {
        Reply::Message { text } => assert_eq!(text, "gofsh: No such card."),
        other => panic!("expected a rejection, got {other:?}"),
    }
    assert_eq!(g.my_hand, strings(&["ls", "ls", "cat"]));
    assert_eq!(g.other_hand, strings(&["cat"]));
}

#[test]
fn step_ask_miss_goes_fishing() {
    let mut g = Game {
        commands: strings(&["ls", "cat", "echo"]),
        draw_pile: strings(&["echo"]),
        my_hand: Vec::new(),
        other_hand: strings(&["ls"]),
    };
    match g.step("ask cat") {
        Reply::Message { text } => assert_eq!(text, "gofsh: Go Fish!\ngofsh: You drew echo"),
        other => panic!("expected a go-fish report, got {other:?}"),
    }
    assert_eq!(g.my_hand, strings(&["echo"]));
}

#[test]
fn step_ask_miss_with_empty_pile_reports_it() {
    let mut g = Game {
        commands: strings(&["ls", "cat"]),
        draw_pile: Vec::new(),
        my_hand: Vec::new(),
        other_hand: strings(&["ls"]),
    };
    match g.step("ask cat") {
        Reply::Message { text } => assert_eq!(text, "gofsh: No cards left to draw."),
        other => panic!("expected the empty-pile line, got {other:?}"),
    }
    assert_eq!(g.other_hand, strings(&["ls"]));
}
