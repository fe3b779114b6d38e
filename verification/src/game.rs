//! The game state: catalog, draw pile and the two hands, with the operations
//! that move cards between them. Cards are never created or destroyed after
//! the deck is built, and every operation here preserves that conservation
//! law as a stated postcondition.

use vstd::prelude::*;
use vstd::multiset::Multiset;
use crate::rng::random_index;
use crate::text::{trim, trim_spec, first_token, split_command, string_eq, contains_name};

verus! {

broadcast use {
    vstd::seq_lib::group_to_multiset_ensures,
    vstd::seq_lib::group_filter_ensures,
    Seq::lemma_filter_push,
    vstd::multiset::group_multiset_axioms,
};

/// How many copies of each distinct catalog entry the deck holds.
pub const COPIES_PER_CARD: usize = 4;

/// How many cards one participant is dealt per card in the pile at setup:
/// each hand receives `pile_size / DEAL_DIVISOR` cards.
pub const DEAL_DIVISOR: usize = 7;

/// Number of copies of `name` among the cards `s`.
pub open spec fn count_of(s: Seq<Seq<char>>, name: Seq<char>) -> nat {
    s.to_multiset().count(name)
}

/// One random draw: some position `i` of the old pile was removed and its
/// card appended to the hand.
pub open spec fn draw_rel(
    pile_pre: Seq<Seq<char>>,
    pile_post: Seq<Seq<char>>,
    hand_pre: Seq<Seq<char>>,
    hand_post: Seq<Seq<char>>,
    c: Seq<char>,
) -> bool {
    &&& exists|i: int|
        0 <= i < pile_pre.len() && c == pile_pre[i] && pile_post == pile_pre.remove(i)
    &&& hand_post == hand_pre.push(c)
}

/// Select a uniformly random card of `draw_pile`, move it into `hand`, and
/// return it; `None` exactly when the pile is empty, in which case nothing
/// changes.
pub fn draw_into(hand: &mut Vec<String>, draw_pile: &mut Vec<String>) -> (r: Option<String>)
    ensures
        (old(draw_pile)@.len() == 0) <==> (r is None),
        r is None ==> *final(hand) == *old(hand) && *final(draw_pile) == *old(draw_pile),
        r matches Some(c) ==> draw_rel(
            old(draw_pile).deep_view(),
            final(draw_pile).deep_view(),
            old(hand).deep_view(),
            final(hand).deep_view(),
            c@,
        ),
        r is Some ==> final(draw_pile)@.len() == old(draw_pile)@.len() - 1
            && final(hand)@.len() == old(hand)@.len() + 1,
        r matches Some(c) ==> final(draw_pile).deep_view().to_multiset().insert(c@)
            =~= old(draw_pile).deep_view().to_multiset(),
        r matches Some(c) ==> final(hand).deep_view().to_multiset()
            =~= old(hand).deep_view().to_multiset().insert(c@),
{
    if draw_pile.len() == 0 {
        return None;
    }
    let i = random_index(draw_pile.len());
    let value = draw_pile.remove(i);
    hand.push(value.clone());
    proof {
        let pile_pre = old(draw_pile).deep_view();
        assert(draw_pile.deep_view() =~= pile_pre.remove(i as int));
        assert(hand.deep_view() =~= old(hand).deep_view().push(value@));
        assert(0 <= i < pile_pre.len() && value@ == pile_pre[i as int]
            && draw_pile.deep_view() == pile_pre.remove(i as int));
    }
    Some(value)
}

/// The predicate a card must meet to stay behind when every copy of `name`
/// is taken out of a hand.
pub open spec fn keeps(name: Seq<char>) -> spec_fn(Seq<char>) -> bool {
    |c: Seq<char>| c != name
}

/// A sequence whose every element satisfies `pred` is left whole by `filter`.
proof fn lemma_filter_all(s: Seq<Seq<char>>, pred: spec_fn(Seq<char>) -> bool)
    requires
        forall|i: int| 0 <= i < s.len() ==> pred(s[i]),
    ensures
        s.filter(pred) == s,
    decreases s.len(),
{
    reveal(Seq::filter);
    if s.len() > 0 {
        lemma_filter_all(s.drop_last(), pred);
        assert(s.drop_last().push(s.last()) =~= s);
    }
}

/// Count the copies of `name` held in `v`.
pub fn count_matching(v: &Vec<String>, name: &String) -> (count: usize)
    ensures
        count as nat == count_of(v.deep_view(), name@),
{
    let n = v.len();
    let mut count: usize = 0;
    let mut j: usize = 0;
    while j < n
        invariant
            n == v@.len(),
            j <= n,
            count <= j,
            count as nat == count_of(v.deep_view().take(j as int), name@),
        decreases n - j,
    {
        proof {
            assert(v.deep_view().take(j as int + 1) =~= v.deep_view().take(j as int).push(
                v.deep_view()[j as int],
            ));
        }
        if string_eq(&v[j], name) {
            count = count + 1;
        }
        j = j + 1;
    }
    proof {
        assert(v.deep_view().take(n as int) =~= v.deep_view());
    }
    count
}

/// Move every copy of `name` out of `from` and append them to `to`,
/// returning how many moved. All copies move, the cards that stay keep
/// their order, and when nothing matches nothing changes at all.
pub fn transfer_all(name: &String, from: &mut Vec<String>, to: &mut Vec<String>) -> (count: usize)
    ensures
        count as nat == count_of(old(from).deep_view(), name@),
        final(from).deep_view() == old(from).deep_view().filter(keeps(name@)),
        final(to).deep_view() == old(to).deep_view() + Seq::new(count as nat, |i: int| name@),
        count == 0 ==> *final(from) == *old(from) && *final(to) == *old(to),
        count_of(final(from).deep_view(), name@) == 0,
        final(from)@.len() + count == old(from)@.len(),
        final(to)@.len() == old(to)@.len() + count,
        final(from).deep_view().to_multiset().add(final(to).deep_view().to_multiset())
            =~= old(from).deep_view().to_multiset().add(old(to).deep_view().to_multiset()),
{
    let ghost pred = keeps(name@);
    let ghost from0 = from.deep_view();
    let ghost to0 = to.deep_view();
    let n = from.len();
    let mut kept: Vec<String> = Vec::new();
    let mut count: usize = 0;
    let mut j: usize = 0;
    while j < n
        invariant
            *from == *old(from),
            from0 == from.deep_view(),
            to0 == old(to).deep_view(),
            pred == keeps(name@),
            n == from@.len(),
            j <= n,
            count <= j,
            kept@.len() + count == j,
            kept.deep_view() == from0.take(j as int).filter(pred),
            to.deep_view() == to0 + Seq::new(count as nat, |i: int| name@),
            count == 0 ==> *to == *old(to),
            count as nat == count_of(from0.take(j as int), name@),
            kept.deep_view().to_multiset().add(
                Seq::new(count as nat, |i: int| name@).to_multiset(),
            ) =~= from0.take(j as int).to_multiset(),
        decreases n - j,
    {
        let ghost x = from0[j as int];
        proof {
            assert(from0.take(j as int + 1) =~= from0.take(j as int).push(x));
        }
        if string_eq(&from[j], name) {
            let ghost to_pre = to.deep_view();
            to.push(from[j].clone());
            count = count + 1;
            proof {
                assert(to.deep_view() =~= to_pre.push(name@));
                assert(Seq::new(count as nat, |i: int| name@) =~= Seq::new(
                    (count - 1) as nat,
                    |i: int| name@,
                ).push(name@));
                assert(to.deep_view() =~= to0 + Seq::new(count as nat, |i: int| name@));
            }
        } else {
            let ghost kept_pre = kept.deep_view();
            kept.push(from[j].clone());
            proof {
                assert(kept.deep_view() =~= kept_pre.push(x));
            }
        }
        j = j + 1;
    }
    proof {
        assert(from0.take(n as int) =~= from0);
    }
    if count > 0 {
        *from = kept;
        proof {
            vstd::seq_lib::lemma_multiset_commutative(
                to0,
                Seq::new(count as nat, |i: int| name@),
            );
            assert(forall|i: int|
                0 <= i < from.deep_view().filter(pred).len() ==> pred(
                    #[trigger] from.deep_view().filter(pred)[i],
                ));
        }
    } else {
        proof {
            assert(!from0.to_multiset().contains(name@));
            assert(forall|i: int| 0 <= i < from0.len() ==> pred(#[trigger] from0[i]));
            lemma_filter_all(from0, pred);
            assert(to0 + Seq::new(0, |i: int| name@) =~= to0);
            vstd::seq_lib::lemma_multiset_commutative(
                to0,
                Seq::new(count as nat, |i: int| name@),
            );
        }
    }
    count
}

/// What one ask request came to.
#[derive(Debug, PartialEq, Eq)]
pub enum AskOutcome {
    /// The asked-for name is not in the catalog; nothing changed.
    NoSuchCard,
    /// The opponent held the card: this many copies moved to the player.
    Received { count: usize },
    /// The opponent held none: the player drew this card from the pile.
    GoFish { drawn: String },
    /// The opponent held none and the pile is empty; nothing changed.
    PileEmpty,
}

/// The play validator's verdict on one `run` request.
#[derive(Debug, PartialEq, Eq)]
pub enum PlayOutcome {
    /// The line held no leading token.
    MissingCommand,
    /// The player holds no copy of the named command.
    NotHeld,
    /// The player holds exactly one copy; two are needed.
    OnlyOne,
    /// The player holds at least two copies: the line may be executed.
    Authorized,
}

/// The verdict the play validator owes on `data`: its leading token must be
/// held at least twice in `hand` for the line to be authorized.
pub open spec fn play_verdict(hand: Seq<Seq<char>>, data: Seq<char>) -> PlayOutcome {
    let cmd = first_token(data);
    if cmd.len() == 0 {
        PlayOutcome::MissingCommand
    } else if count_of(hand, cmd) == 0 {
        PlayOutcome::NotHeld
    } else if count_of(hand, cmd) == 1 {
        PlayOutcome::OnlyOne
    } else {
        PlayOutcome::Authorized
    }
}

/// How one ask request relates the state before (`pre`) to the state after
/// (`post`): an unknown name changes nothing; a held name moves every copy
/// to the player; an unheld name forces one draw, or nothing when the pile
/// is empty.
pub open spec fn ask_rel(pre: Game, post: Game, data: Seq<char>, r: AskOutcome) -> bool {
    let name = trim_spec(data);
    let held = count_of(pre.other_hand.deep_view(), name);
    if !pre.commands.deep_view().contains(name) {
        post == pre && r == AskOutcome::NoSuchCard
    } else if held > 0 {
        &&& r matches AskOutcome::Received { count } && count as nat == held
        &&& post.commands == pre.commands
        &&& post.draw_pile == pre.draw_pile
        &&& post.other_hand.deep_view() == pre.other_hand.deep_view().filter(keeps(name))
        &&& count_of(post.other_hand.deep_view(), name) == 0
        &&& post.my_hand.deep_view() == pre.my_hand.deep_view() + Seq::new(held, |i: int| name)
    } else if pre.draw_pile@.len() == 0 {
        post == pre && r == AskOutcome::PileEmpty
    } else {
        &&& r matches AskOutcome::GoFish { drawn } && draw_rel(
            pre.draw_pile.deep_view(),
            post.draw_pile.deep_view(),
            pre.my_hand.deep_view(),
            post.my_hand.deep_view(),
            drawn@,
        )
        &&& post.commands == pre.commands
        &&& post.other_hand == pre.other_hand
    }
}

/// The whole game state. The catalog (`commands`) is fixed at construction;
/// the pile and the hands exchange cards but their union, as a multiset of
/// names, never changes.
pub struct Game {
    pub commands: Vec<String>,
    pub draw_pile: Vec<String>,
    pub my_hand: Vec<String>,
    pub other_hand: Vec<String>,
}

impl Game {
    /// Every card currently in play, as a multiset of names.
    pub open spec fn cards(self) -> Multiset<Seq<char>> {
        self.draw_pile.deep_view().to_multiset().add(self.my_hand.deep_view().to_multiset()).add(
            self.other_hand.deep_view().to_multiset(),
        )
    }

    /// Total number of cards in play: the conservation law keeps this equal
    /// to four times the catalog size for the life of a session.
    pub open spec fn total_cards(self) -> nat {
        self.draw_pile@.len() + self.my_hand@.len() + self.other_hand@.len()
    }

    /// Build a fresh game from a catalog of command names: the draw pile
    /// holds each catalog entry four times, in catalog order, and both hands
    /// start empty.
    pub fn new(commands: Vec<String>) -> (g: Game)
        ensures
            g.commands == commands,
            g.my_hand@.len() == 0,
            g.other_hand@.len() == 0,
            g.draw_pile@.len() == COPIES_PER_CARD * commands@.len(),
            forall|i: int|
                0 <= i < g.draw_pile@.len() ==> g.draw_pile.deep_view()[i]
                    == commands.deep_view()[i / (COPIES_PER_CARD as int)],
            g.total_cards() == COPIES_PER_CARD * commands@.len(),
    {
        let mut draw_pile: Vec<String> = Vec::new();
        let n = commands.len();
        let mut k: usize = 0;
        while k < n
            invariant
                n == commands@.len(),
                k <= n,
                draw_pile@.len() == COPIES_PER_CARD * k,
                forall|i: int|
                    0 <= i < draw_pile@.len() ==> draw_pile.deep_view()[i]
                        == commands.deep_view()[i / (COPIES_PER_CARD as int)],
            decreases n - k,
        {
            let card = &commands[k];
            let mut c: usize = 0;
            while c < COPIES_PER_CARD
                invariant
                    n == commands@.len(),
                    k < n,
                    c <= COPIES_PER_CARD,
                    card@ == commands.deep_view()[k as int],
                    draw_pile@.len() == COPIES_PER_CARD * k + c,
                    forall|i: int|
                        0 <= i < draw_pile@.len() ==> draw_pile.deep_view()[i]
                            == commands.deep_view()[i / (COPIES_PER_CARD as int)],
                decreases COPIES_PER_CARD - c,
            {
                let ghost pre = draw_pile.deep_view();
                draw_pile.push(card.clone());
                c = c + 1;
                proof {
                    let last = draw_pile@.len() - 1;
                    assert(draw_pile.deep_view() =~= pre.push(card@));
                    assert(last / (COPIES_PER_CARD as int) == k as int) by (nonlinear_arith)
                        requires
                            last == COPIES_PER_CARD * (k as int) + c - 1,
                            0 < c <= COPIES_PER_CARD,
                            COPIES_PER_CARD == 4,
                    ;
                    assert(draw_pile.deep_view()[last] == commands.deep_view()[k as int]);
                    assert(forall|i: int|
                        0 <= i < last ==> draw_pile.deep_view()[i] == pre[i]);
                }
            }
            k = k + 1;
        }
        Game { commands, draw_pile, my_hand: Vec::new(), other_hand: Vec::new() }
    }

    /// Draw one random card into the player hand; `None` exactly when the
    /// pile is empty. The cards in play are conserved.
    pub fn draw(&mut self) -> (r: Option<String>)
        ensures
            final(self).commands == old(self).commands,
            final(self).other_hand == old(self).other_hand,
            (old(self).draw_pile@.len() == 0) <==> (r is None),
            r is None ==> *final(self) == *old(self),
            r matches Some(c) ==> draw_rel(
                old(self).draw_pile.deep_view(),
                final(self).draw_pile.deep_view(),
                old(self).my_hand.deep_view(),
                final(self).my_hand.deep_view(),
                c@,
            ),
            r is Some ==> final(self).draw_pile@.len() == old(self).draw_pile@.len() - 1
                && final(self).my_hand@.len() == old(self).my_hand@.len() + 1,
            final(self).cards() == old(self).cards(),
            final(self).total_cards() == old(self).total_cards(),
    {
        let r = draw_into(&mut self.my_hand, &mut self.draw_pile);
        proof {
            if r is Some {
                let c = r->0;
                assert(self.cards() =~= old(self).cards());
            }
        }
        r
    }

    /// Draw one random card into the opponent hand; `None` exactly when the
    /// pile is empty. The cards in play are conserved.
    pub fn draw_other(&mut self) -> (r: Option<String>)
        ensures
            final(self).commands == old(self).commands,
            final(self).my_hand == old(self).my_hand,
            (old(self).draw_pile@.len() == 0) <==> (r is None),
            r is None ==> *final(self) == *old(self),
            r matches Some(c) ==> draw_rel(
                old(self).draw_pile.deep_view(),
                final(self).draw_pile.deep_view(),
                old(self).other_hand.deep_view(),
                final(self).other_hand.deep_view(),
                c@,
            ),
            r is Some ==> final(self).draw_pile@.len() == old(self).draw_pile@.len() - 1
                && final(self).other_hand@.len() == old(self).other_hand@.len() + 1,
            final(self).cards() == old(self).cards(),
            final(self).total_cards() == old(self).total_cards(),
    {
        let r = draw_into(&mut self.other_hand, &mut self.draw_pile);
        proof {
            if r is Some {
                assert(self.cards() =~= old(self).cards());
            }
        }
        r
    }

    /// The ask protocol: trim the request, check it names a catalog entry,
    /// move every matching copy from the opponent, and go fish on a miss.
    /// Validation fully precedes mutation, and the cards in play are
    /// conserved.
    pub fn ask(&mut self, data: &str) -> (r: AskOutcome)
        ensures
            ask_rel(*old(self), *final(self), data@, r),
            final(self).commands == old(self).commands,
            final(self).cards() == old(self).cards(),
            final(self).total_cards() == old(self).total_cards(),
    {
        let name = String::from_str(trim(data));
        if !contains_name(&self.commands, &name) {
            return AskOutcome::NoSuchCard;
        }
        let received = transfer_all(&name, &mut self.other_hand, &mut self.my_hand);
        if received == 0 {
            match self.draw() {
                Some(drawn) => AskOutcome::GoFish { drawn },
                None => AskOutcome::PileEmpty,
            }
        } else {
            proof {
                let moved = self.other_hand.deep_view().to_multiset().add(
                    self.my_hand.deep_view().to_multiset(),
                );
                let held = old(self).other_hand.deep_view().to_multiset().add(
                    old(self).my_hand.deep_view().to_multiset(),
                );
                assert(moved == held);
                assert forall|x: Seq<char>| self.cards().count(x) == old(self).cards().count(x) by {
                    assert(moved.count(x) == held.count(x));
                }
                assert(self.cards() =~= old(self).cards());
            }
            AskOutcome::Received { count: received }
        }
    }

    /// The play validator: parse the leading token of `data` and say whether
    /// the player may execute the line. The game state is read, never
    /// changed.
    pub fn run_cmd(&self, data: &str) -> (r: PlayOutcome)
        ensures
            r == play_verdict(self.my_hand.deep_view(), data@),
    {
        let (cmd, _rest) = split_command(data);
        if cmd.as_str().is_empty() {
            return PlayOutcome::MissingCommand;
        }
        let held = count_matching(&self.my_hand, &cmd);
        if held == 0 {
            PlayOutcome::NotHeld
        } else if held == 1 {
            PlayOutcome::OnlyOne
        } else {
            PlayOutcome::Authorized
        }
    }

    /// The initial deal: both participants draw `pile_size / 7` cards each,
    /// alternating. The pile is large enough by construction, so every draw
    /// succeeds, and the cards in play are conserved.
    pub fn deal(&mut self) -> (dealt: usize)
        ensures
            dealt == old(self).draw_pile@.len() as int / (DEAL_DIVISOR as int),
            final(self).commands == old(self).commands,
            final(self).my_hand@.len() == old(self).my_hand@.len() + dealt,
            final(self).other_hand@.len() == old(self).other_hand@.len() + dealt,
            final(self).draw_pile@.len() == old(self).draw_pile@.len() - 2 * dealt,
            old(self).my_hand.deep_view().is_prefix_of(final(self).my_hand.deep_view()),
            old(self).other_hand.deep_view().is_prefix_of(final(self).other_hand.deep_view()),
            final(self).cards() == old(self).cards(),
            final(self).total_cards() == old(self).total_cards(),
    {
        let start_amount = self.draw_pile.len() / DEAL_DIVISOR;
        proof {
            let len = old(self).draw_pile@.len() as int;
            assert(2 * (len / (DEAL_DIVISOR as int)) <= len) by (nonlinear_arith)
                requires
                    DEAL_DIVISOR == 7,
                    len >= 0,
            ;
        }
        let mut k: usize = 0;
        while k < start_amount
            invariant
                k <= start_amount,
                2 * start_amount <= old(self).draw_pile@.len(),
                self.commands == old(self).commands,
                self.my_hand@.len() == old(self).my_hand@.len() + k,
                self.other_hand@.len() == old(self).other_hand@.len() + k,
                self.draw_pile@.len() == old(self).draw_pile@.len() - 2 * k,
                old(self).my_hand.deep_view().is_prefix_of(self.my_hand.deep_view()),
                old(self).other_hand.deep_view().is_prefix_of(self.other_hand.deep_view()),
                self.cards() == old(self).cards(),
            decreases start_amount - k,
        {
            let ghost my_pre = self.my_hand.deep_view();
            let ghost other_pre = self.other_hand.deep_view();
            let _ = self.draw();
            let _ = self.draw_other();
            proof {
                assert(my_pre.is_prefix_of(self.my_hand.deep_view()));
                assert(other_pre.is_prefix_of(self.other_hand.deep_view()));
            }
            k = k + 1;
        }
        start_amount
    }
}

} // verus!
