use gofsh::game::{Game, AskOutcome, PlayOutcome, draw_into, transfer_all, count_matching};

fn strings(names: &[&str]) -> Vec<String> {
    names.iter().map(|s| s.to_string()).collect()
}

fn sample_game() -> Game {
    Game::new(strings(&["ls", "cat", "echo"]))
}

#[test]
fn new_replicates_each_command_four_times() {
    let g = sample_game();
    assert_eq!(g.draw_pile.len(), 12);
    assert_eq!(g.my_hand.len(), 0);
    assert_eq!(g.other_hand.len(), 0);
    let expected = strings(&[
        "ls", "ls", "ls", "ls", "cat", "cat", "cat", "cat", "echo", "echo", "echo", "echo",
    ]);
    assert_eq!(g.draw_pile, expected);
}

#[test]
fn draw_moves_one_card_from_pile_to_hand() {
    let mut g = sample_game();
    let drawn = g.draw().expect("pile is full");
    assert_eq!(g.draw_pile.len(), 11);
    assert_eq!(g.my_hand.len(), 1);
    assert_eq!(g.my_hand[0], drawn);
    assert!(["ls", "cat", "echo"].contains(&drawn.as_str()));
}

#[test]
fn draw_from_singleton_pile_returns_that_card() {
    let mut hand: Vec<String> = Vec::new();
    let mut pile = strings(&["cat"]);
    let drawn = draw_into(&mut hand, &mut pile).expect("one card remains");
    assert_eq!(drawn, "cat");
    assert_eq!(hand, strings(&["cat"]));
    assert!(pile.is_empty());
}

#[test]
fn draw_from_empty_pile_signals_and_changes_nothing() {
    let mut g = Game {
        commands: strings(&["ls"]),
        draw_pile: Vec::new(),
        my_hand: strings(&["ls"]),
        other_hand: Vec::new(),
    };
    assert!(g.draw().is_none());
    assert!(g.draw_pile.is_empty());
    assert_eq!(g.my_hand, strings(&["ls"]));
}

#[test]
fn conservation_holds_across_draws_and_asks() {
    let mut g = sample_game();
    let total = g.draw_pile.len() + g.my_hand.len() + g.other_hand.len();
    assert_eq!(total, 12);
    g.deal();
    for line in ["ask cat", "ask ls", "ask nonsense", "run ls", "hand"] {
        let _ = g.step(line);
        assert_eq!(
            g.draw_pile.len() + g.my_hand.len() + g.other_hand.len(),
            total,
            "conservation broken after {line:?}"
        );
    }
    for _ in 0..3 {
        let _ = g.draw();
        assert_eq!(g.draw_pile.len() + g.my_hand.len() + g.other_hand.len(), total);
    }
}

#[test]
fn deal_gives_each_hand_a_seventh_of_the_pile() {
    let mut g = sample_game();
    let dealt = g.deal();
    assert_eq!(dealt, 1);
    assert_eq!(g.my_hand.len(), 1);
    assert_eq!(g.other_hand.len(), 1);
    assert_eq!(g.draw_pile.len(), 10);
}

#[test]
fn ask_unknown_name_changes_nothing() {
    let mut g = Game {
        commands: strings(&["ls", "cat"]),
        draw_pile: strings(&["ls", "cat"]),
        my_hand: strings(&["ls"]),
        other_hand: strings(&["cat"]),
    };
    let outcome = g.ask("doom");
    assert_eq!(outcome, AskOutcome::NoSuchCard);
    assert_eq!(g.draw_pile, strings(&["ls", "cat"]));
    assert_eq!(g.my_hand, strings(&["ls"]));
    assert_eq!(g.other_hand, strings(&["cat"]));
}

#[test]
fn ask_moves_every_copy_and_leaves_none_behind() {
    let mut g = Game {
        commands: strings(&["ls", "cat"]),
        draw_pile: strings(&["cat"]),
        my_hand: strings(&["cat"]),
        other_hand: strings(&["ls", "cat", "ls", "ls"]),
    };
    let outcome = g.ask("ls");
    assert_eq!(outcome, AskOutcome::Received { count: 3 });
    assert_eq!(g.my_hand, strings(&["cat", "ls", "ls", "ls"]));
    assert_eq!(g.other_hand, strings(&["cat"]));
    assert_eq!(g.draw_pile, strings(&["cat"]));
}

#[test]
fn ask_miss_forces_exactly_one_draw() {
    let mut g = Game {
        commands: strings(&["ls", "cat", "echo"]),
        draw_pile: strings(&["echo"]),
        my_hand: strings(&["ls"]),
        other_hand: strings(&["ls"]),
    };
    match g.ask("cat") {
        AskOutcome::GoFish { drawn } => assert_eq!(drawn, "echo"),
        other => panic!("expected a go-fish draw, got {other:?}"),
    }
    assert_eq!(g.my_hand, strings(&["ls", "echo"]));
    assert_eq!(g.other_hand, strings(&["ls"]));
    assert!(g.draw_pile.is_empty());
}

#[test]
fn ask_miss_with_empty_pile_is_a_distinct_error() {
    let mut g = Game {
        commands: strings(&["ls", "cat"]),
        draw_pile: Vec::new(),
        my_hand: strings(&["ls"]),
        other_hand: strings(&["ls"]),
    };
    let outcome = g.ask("cat");
    assert_eq!(outcome, AskOutcome::PileEmpty);
    assert!(g.draw_pile.is_empty());
    assert_eq!(g.my_hand, strings(&["ls"]));
    assert_eq!(g.other_hand, strings(&["ls"]));
}

#[test]
fn ask_trims_surrounding_whitespace() {
    let mut g = Game {
        commands: strings(&["ls"]),
        draw_pile: Vec::new(),
        my_hand: Vec::new(),
        other_hand: strings(&["ls"]),
    };
    let outcome = g.ask("  ls \n");
    assert_eq!(outcome, AskOutcome::Received { count: 1 });
    assert_eq!(g.my_hand, strings(&["ls"]));
    assert!(g.other_hand.is_empty());
}

#[test]
fn play_rejected_without_the_card() {
    let g = Game {
        commands: strings(&["ls", "cat"]),
        draw_pile: Vec::new(),
        my_hand: strings(&["cat", "cat"]),
        other_hand: Vec::new(),
    };
    assert_eq!(g.run_cmd("ls -la"), PlayOutcome::NotHeld);
    assert_eq!(g.my_hand.len(), 2);
}

#[test]
fn play_rejected_with_a_single_copy() {
    let g = Game {
        commands: strings(&["ls", "cat"]),
        draw_pile: Vec::new(),
        my_hand: strings(&["cat", "ls", "cat"]),
        other_hand: Vec::new(),
    };
    assert_eq!(g.run_cmd("ls"), PlayOutcome::OnlyOne);
    assert_eq!(g.my_hand.len(), 3);
}

#[test]
fn play_authorized_with_two_copies_and_hand_unchanged() {
    let g = Game {
        commands: strings(&["ls", "cat"]),
        draw_pile: Vec::new(),
        my_hand: strings(&["cat", "ls", "ls"]),
        other_hand: Vec::new(),
    };
    assert_eq!(g.run_cmd("ls -la /tmp"), PlayOutcome::Authorized);
    assert_eq!(g.my_hand, strings(&["cat", "ls", "ls"]));
}

#[test]
fn play_with_no_token_is_missing_command() {
    let g = Game {
        commands: strings(&["ls"]),
        draw_pile: Vec::new(),
        my_hand: strings(&["ls", "ls"]),
        other_hand: Vec::new(),
    };
    assert_eq!(g.run_cmd(""), PlayOutcome::MissingCommand);
    assert_eq!(g.run_cmd(" ls"), PlayOutcome::MissingCommand);
}

#[test]
fn transfer_all_reports_zero_on_a_miss() {
    let mut from = strings(&["ls", "cat"]);
    let mut to = Vec::new();
    let moved = transfer_all(&"echo".to_string(), &mut from, &mut to);
    assert_eq!(moved, 0);
    assert_eq!(from, strings(&["ls", "cat"]));
    assert!(to.is_empty());
}

#[test]
fn transfer_all_keeps_the_order_of_what_stays() {
    let mut from = strings(&["a", "b", "a", "c", "a"]);
    let mut to = strings(&["z"]);
    let moved = transfer_all(&"a".to_string(), &mut from, &mut to);
    assert_eq!(moved, 3);
    assert_eq!(from, strings(&["b", "c"]));
    assert_eq!(to, strings(&["z", "a", "a", "a"]));
}

#[test]
fn count_matching_counts_exact_names_only() {
    let hand = strings(&["ls", "lsa", "ls", ""]);
    assert_eq!(count_matching(&hand, &"ls".to_string()), 2);
    assert_eq!(count_matching(&hand, &"lsa".to_string()), 1);
    assert_eq!(count_matching(&hand, &"grep".to_string()), 0);
}

#[test]
fn end_to_end_three_command_session() {
    let mut g = sample_game();
    assert_eq!(g.draw_pile.len(), 12);
    let dealt = g.deal();
    assert_eq!(dealt, 1);
    assert_eq!(g.my_hand.len(), 1);
    assert_eq!(g.other_hand.len(), 1);
    assert_eq!(g.draw_pile.len(), 10);
    // Pin the opponent hand so the ask below is guaranteed to miss.
    let removed = g.other_hand[0].clone();
    g.other_hand = strings(&["ls"]);
    g.draw_pile.push(removed);
    g.draw_pile.remove(g.draw_pile.iter().position(|c| c.as_str() == "ls").unwrap());
    let before_pile = g.draw_pile.len();
    match g.ask("cat") {
        AskOutcome::GoFish { drawn } => {
            assert_eq!(*g.my_hand.last().unwrap(), drawn);
        }
        other => panic!("expected a go-fish draw, got {other:?}"),
    }
    assert_eq!(g.my_hand.len(), 2);
    assert_eq!(g.draw_pile.len(), before_pile - 1);
    assert_eq!(g.draw_pile.len() + g.my_hand.len() + g.other_hand.len(), 12);
}
