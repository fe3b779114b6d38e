use gofsh::catalog::{basename_str, catalog_from_listing, split_lines_str};
use gofsh::messages::{empty_pile_msg, go_fish_msg, help_msg, missing_command_msg, no_such_card_msg, not_held_msg, only_one_msg, received_msg};
use gofsh::tally::hand_text;
use gofsh::text::{padded_count_str, split_command, trim};

fn strings(names: &[&str]) -> Vec<String> {
    names.iter().map(|s| s.to_string()).collect()
}

#[test]
fn trim_strips_surrounding_whitespace_only() {
    assert_eq!(trim("  ls -la \n"), "ls -la");
    assert_eq!(trim("cat"), "cat");
    assert_eq!(trim(" \t\r\n "), "");
    assert_eq!(trim(""), "");
}

#[test]
fn split_command_takes_token_and_verbatim_rest() {
    let (cmd, data) = split_command("run ls  -la\n");
    assert_eq!(cmd, "run");
    assert_eq!(data, "ls  -la\n");
    let (cmd, data) = split_command("hand");
    assert_eq!(cmd, "hand");
    assert_eq!(data, "");
    let (cmd, data) = split_command(" leading");
    assert_eq!(cmd, "");
    assert_eq!(data, "leading");
}

#[test]
fn counts_are_padded_to_six_columns() {
    assert_eq!(padded_count_str(2), "     2");
    assert_eq!(padded_count_str(0), "     0");
    assert_eq!(padded_count_str(123456), "123456");
    assert_eq!(padded_count_str(1234567), "1234567");
}

#[test]
fn hand_output_orders_higher_counts_first() {
    let hand = strings(&["ls", "ls", "cat"]);
    assert_eq!(hand_text(&hand), "     2 ls\n     1 cat");
}

#[test]
fn hand_output_breaks_count_ties_by_first_encounter() {
    let hand = strings(&["cat", "ls", "ls", "cat", "echo"]);
    assert_eq!(hand_text(&hand), "     2 cat\n     2 ls\n     1 echo");
}

#[test]
fn hand_output_of_empty_hand_is_empty() {
    assert_eq!(hand_text(&Vec::new()), "");
}

#[test]
fn basenames_follow_the_last_slash() {
    assert_eq!(basename_str("/usr/bin/ls"), "ls");
    assert_eq!(basename_str("ls"), "ls");
    assert_eq!(basename_str("/usr/bin/"), "");
    assert_eq!(basename_str(""), "");
}

#[test]
fn listing_lines_split_at_newlines() {
    assert_eq!(split_lines_str("a\nb\nc"), strings(&["a", "b", "c"]));
    assert_eq!(split_lines_str("a"), strings(&["a"]));
    assert_eq!(split_lines_str(""), strings(&[""]));
    assert_eq!(split_lines_str("a\n"), strings(&["a", ""]));
}

#[test]
fn catalog_collapses_duplicate_basenames() {
    let raw = " /bin/ls\n/usr/bin/cat\n/usr/local/bin/ls\n/bin/echo \n";
    let catalog = catalog_from_listing(raw).expect("well-formed listing");
    assert_eq!(catalog, strings(&["ls", "cat", "echo"]));
}

#[test]
fn catalog_rejects_a_line_without_a_basename() {
    assert!(catalog_from_listing("/bin/ls\n/usr/bin/\n/bin/echo").is_none());
    assert!(catalog_from_listing("").is_none());
}

#[test]
fn messages_match_the_session_wording() {
    assert_eq!(help_msg(), "gofsh: [insert help]");
    assert_eq!(no_such_card_msg(), "gofsh: No such card.");
    assert_eq!(missing_command_msg(), "gofsh: Missing command.");
    assert_eq!(not_held_msg(), "gofsh: You don't have that card.");
    assert_eq!(only_one_msg(), "gofsh: You only have one of that card.");
    assert_eq!(empty_pile_msg(), "gofsh: No cards left to draw.");
}

#[test]
fn received_message_pluralizes() {
    assert_eq!(received_msg(1, &"ls".to_string()), "gofsh: You received 1 copy of ls");
    assert_eq!(received_msg(3, &"cat".to_string()), "gofsh: You received 3 copies of cat");
}

#[test]
fn go_fish_message_reports_the_draw() {
    assert_eq!(go_fish_msg(&"echo".to_string()), "gofsh: Go Fish!\ngofsh: You drew echo");
}
