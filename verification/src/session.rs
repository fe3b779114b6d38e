//! The interactive loop's decision step: one input line in, one reply out.
//! The caller owns the actual reading, printing, paging and process
//! spawning; this module owns every decision in between.

use vstd::prelude::*;
use crate::game::{Game, AskOutcome, PlayOutcome, play_verdict, ask_rel};
use crate::tally::hand_text_spec;
use crate::text::{first_token, rest_after, trim_spec, string_eq};
use crate::messages::{
    help_text, no_such_card_text, missing_command_text, not_held_text, only_one_text,
    empty_pile_text, received_text, go_fish_text, help_msg, no_such_card_msg,
    missing_command_msg, not_held_msg, only_one_msg, empty_pile_msg, received_msg, go_fish_msg,
};

verus! {

/// What the caller must do with one processed line.
#[derive(Debug)]
pub enum Reply {
    /// Hand `text` to the pager.
    ShowHand { text: String },
    /// Print `text`.
    Message { text: String },
    /// The play validator authorized this full line: execute it.
    Execute { command_line: String },
}

/// The reply owed to a `run` request, by the play validator's verdict.
pub open spec fn run_reply_ok(hand: Seq<Seq<char>>, data: Seq<char>, r: Reply) -> bool {
    match play_verdict(hand, data) {
        PlayOutcome::MissingCommand => r matches Reply::Message { text } && text@
            == missing_command_text(),
        PlayOutcome::NotHeld => r matches Reply::Message { text } && text@ == not_held_text(),
        PlayOutcome::OnlyOne => r matches Reply::Message { text } && text@ == only_one_text(),
        PlayOutcome::Authorized => r matches Reply::Execute { command_line } && command_line@
            == data,
    }
}

/// The reply owed to an `ask` request, by the ask protocol's outcome.
pub open spec fn ask_reply_ok(a: AskOutcome, name: Seq<char>, r: Reply) -> bool {
    match a {
        AskOutcome::NoSuchCard => r matches Reply::Message { text } && text@
            == no_such_card_text(),
        AskOutcome::Received { count } => r matches Reply::Message { text } && text@
            == received_text(count as nat, name),
        AskOutcome::GoFish { drawn } => r matches Reply::Message { text } && text@
            == go_fish_text(drawn@),
        AskOutcome::PileEmpty => r matches Reply::Message { text } && text@
            == empty_pile_text(),
    }
}

/// How one processed line relates the state before to the state after:
/// `hand` and `run` read but never change the game, `ask` changes it as the
/// ask protocol says, and everything else is help.
pub open spec fn step_rel(pre: Game, post: Game, line: Seq<char>, r: Reply) -> bool {
    let cmd = first_token(line);
    let data = rest_after(line);
    if cmd == "hand"@ {
        post == pre && (r matches Reply::ShowHand { text } && text@ == hand_text_spec(
            pre.my_hand.deep_view(),
        ))
    } else if cmd == "run"@ {
        post == pre && run_reply_ok(pre.my_hand.deep_view(), data, r)
    } else if cmd == "ask"@ {
        exists|a: AskOutcome| #[trigger]
            ask_rel(pre, post, data, a) && ask_reply_ok(a, trim_spec(data), r)
    } else {
        post == pre && (r matches Reply::Message { text } && text@ == help_text())
    }
}

impl Game {
    /// Process one input line: dispatch on its leading token, mutate the
    /// game only as the ask protocol allows, and say what the caller must
    /// show or do. The cards in play are conserved.
    pub fn step(&mut self, line: &str) -> (r: Reply)
        ensures
            step_rel(*old(self), *final(self), line@, r),
            final(self).commands == old(self).commands,
            final(self).cards() == old(self).cards(),
            final(self).total_cards() == old(self).total_cards(),
    {
        let (cmd, data) = crate::text::split_command(line);
        let hand_word = String::from_str("hand");
        let run_word = String::from_str("run");
        let ask_word = String::from_str("ask");
        if string_eq(&cmd, &hand_word) {
            let text = crate::tally::hand_text(&self.my_hand);
            Reply::ShowHand { text }
        } else if string_eq(&cmd, &run_word) {
            match self.run_cmd(data.as_str()) {
                PlayOutcome::MissingCommand => Reply::Message { text: missing_command_msg() },
                PlayOutcome::NotHeld => Reply::Message { text: not_held_msg() },
                PlayOutcome::OnlyOne => Reply::Message { text: only_one_msg() },
                PlayOutcome::Authorized => Reply::Execute { command_line: data },
            }
        } else if string_eq(&cmd, &ask_word) {
            let name = String::from_str(crate::text::trim(data.as_str()));
            let a = self.ask(data.as_str());
            let r = match &a {
                AskOutcome::NoSuchCard => Reply::Message { text: no_such_card_msg() },
                AskOutcome::Received { count } => Reply::Message {
                    text: received_msg(*count, &name),
                },
                AskOutcome::GoFish { drawn } => Reply::Message { text: go_fish_msg(drawn) },
                AskOutcome::PileEmpty => Reply::Message { text: empty_pile_msg() },
            };
            proof {
                assert(ask_rel(*old(self), *self, rest_after(line@), a) && ask_reply_ok(
                    a,
                    trim_spec(rest_after(line@)),
                    r,
                ));
            }
            r
        } else {
            Reply::Message { text: help_msg() }
        }
    }
}

} // verus!
