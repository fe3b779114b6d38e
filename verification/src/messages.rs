//! The exact user-facing lines of the interactive loop, as both spec-level
//! text and the executable strings handed back to the caller.

use vstd::prelude::*;
use crate::text::dec_chars;

verus! {

/// The static help line.
pub open spec fn help_text() -> Seq<char> {
    "gofsh: [insert help]"@
}

/// Reply to an ask that names no catalog entry.
pub open spec fn no_such_card_text() -> Seq<char> {
    "gofsh: No such card."@
}

/// Reply to a run line with no leading token.
pub open spec fn missing_command_text() -> Seq<char> {
    "gofsh: Missing command."@
}

/// Reply to a run of a card the player does not hold.
pub open spec fn not_held_text() -> Seq<char> {
    "gofsh: You don't have that card."@
}

/// Reply to a run of a card held only once.
pub open spec fn only_one_text() -> Seq<char> {
    "gofsh: You only have one of that card."@
}

/// Reply to a draw from an empty pile.
pub open spec fn empty_pile_text() -> Seq<char> {
    "gofsh: No cards left to draw."@
}

/// Reply when the opponent handed over `count` copies of `name`.
pub open spec fn received_text(count: nat, name: Seq<char>) -> Seq<char> {
    "gofsh: You received "@ + dec_chars(count) + " "@ + (if count == 1 {
        "copy"@
    } else {
        "copies"@
    }) + " of "@ + name
}

/// Reply when the opponent held nothing and `drawn` came off the pile.
pub open spec fn go_fish_text(drawn: Seq<char>) -> Seq<char> {
    "gofsh: Go Fish!\ngofsh: You drew "@ + drawn
}

/// The static help line.
pub fn help_msg() -> (r: String)
    ensures
        r@ == help_text(),
{
    String::from_str("gofsh: [insert help]")
}

/// "No such card" line.
pub fn no_such_card_msg() -> (r: String)
    ensures
        r@ == no_such_card_text(),
{
    String::from_str("gofsh: No such card.")
}

/// "Missing command" line.
pub fn missing_command_msg() -> (r: String)
    ensures
        r@ == missing_command_text(),
{
    String::from_str("gofsh: Missing command.")
}

/// "You don't have that card" line.
pub fn not_held_msg() -> (r: String)
    ensures
        r@ == not_held_text(),
{
    String::from_str("gofsh: You don't have that card.")
}

/// "You only have one of that card" line.
pub fn only_one_msg() -> (r: String)
    ensures
        r@ == only_one_text(),
{
    String::from_str("gofsh: You only have one of that card.")
}

/// "No cards left to draw" line.
pub fn empty_pile_msg() -> (r: String)
    ensures
        r@ == empty_pile_text(),
{
    String::from_str("gofsh: No cards left to draw.")
}

/// The "you received N copies of name" line, with the right pluralization.
pub fn received_msg(count: usize, name: &String) -> (r: String)
    ensures
        r@ == received_text(count as nat, name@),
{
    let mut r = String::from_str("gofsh: You received ");
    crate::text::push_dec(&mut r, count);
    r.append(" ");
    if count == 1 {
        r.append("copy");
    } else {
        r.append("copies");
    }
    r.append(" of ");
    r.append(name.as_str());
    proof {
        assert(r@ =~= received_text(count as nat, name@));
    }
    r
}

/// The two "Go Fish" lines, reporting what was drawn.
pub fn go_fish_msg(drawn: &String) -> (r: String)
    ensures
        r@ == go_fish_text(drawn@),
{
    let mut r = String::from_str("gofsh: Go Fish!\ngofsh: You drew ");
    r.append(drawn.as_str());
    proof {
        assert(r@ =~= go_fish_text(drawn@));
    }
    r
}

} // verus!
