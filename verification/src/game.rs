//! One replay of a deal: from what is known of the table, through a random
//! completion of the board, to the players who win the pot.

use vstd::prelude::*;
use vstd::seq_lib::*;
use crate::cards::{lemma_full_deck_complete, lemma_full_deck_distinct, Card};
use crate::hands::Hand;
use crate::order::strength_le;
use crate::selection::{
    all_selections_rated, best_hand, is_best_hand, is_best_selection,
    lemma_distinct_cards_all_rated, selected, strength_of,
};
use crate::wrappers::{is_selection, shuffle_cards};

verus! {

/// What is known of a table before the replay: the community cards already
/// shown, and each player's two private cards.
pub struct GameSpec {
    pub board: Vec<Card>,
    pub hole_cards: Vec<(Card, Card)>,
}

/// The state of a replay: the draw pile, whose last card is drawn next, the
/// board, and the players' private cards.
pub struct Game {
    deck: Vec<Card>,
    board: Vec<Card>,
    hole_cards: Vec<(Card, Card)>,
}

/// A [`Game`] as mathematical sequences.
pub ghost struct GameView {
    pub deck: Seq<Card>,
    pub board: Seq<Card>,
    pub hole_cards: Seq<(Card, Card)>,
}

/// Why a replay could not be set up.
#[derive(Clone, Copy, Debug, PartialEq, Eq, Structural)]
pub enum SetupError {
    /// The card was asked for but is no longer, or never was, in the deck: it
    /// is named twice, or it is no card of the 52.
    CardNotFound(Card),
    /// A draw pile was supplied that is not the rest of the deck.
    DeckMismatch,
    /// There is nobody to win the pot.
    NoPlayers,
    /// More players than the deck can serve with a full board.
    TooManyPlayers,
}

/// The private cards of all players in one row: first player's first card,
/// first player's second card, second player's first card, and so on.
pub open spec fn hole_flat(pairs: Seq<(Card, Card)>) -> Seq<Card> {
    Seq::new(
        2 * pairs.len(),
        |i: int|
            if i % 2 == 0 {
                pairs[i / 2].0
            } else {
                pairs[i / 2].1
            },
    )
}

/// The cards that a table names, in the order in which they are taken from
/// the deck: the board, then the private cards.
pub open spec fn dealt_cards(board: Seq<Card>, hole_cards: Seq<(Card, Card)>) -> Seq<Card> {
    board + hole_flat(hole_cards)
}

/// The card at position `at` can be taken from the deck after those before it:
/// it is one of the 52 and none of the earlier cards.
pub open spec fn is_available(cards: Seq<Card>, at: int) -> bool {
    cards[at].wf() && forall|j: int| 0 <= j < at ==> cards[j] != cards[at]
}

/// `card` is the first of `cards` that cannot be taken from the deck.
pub open spec fn is_first_unavailable(cards: Seq<Card>, card: Card) -> bool {
    exists|at: int|
        0 <= at < cards.len() && cards[at] == card && !is_available(cards, at) && forall|j: int|
            0 <= j < at ==> is_available(cards, j)
}

/// `deck` holds, each once and in some order, the cards of the 52 that are not
/// among `taken`.
pub open spec fn is_deck_without(deck: Seq<Card>, taken: Seq<Card>) -> bool {
    &&& deck.no_duplicates()
    &&& forall|card: Card| #[trigger] deck.contains(card) <==> card.wf() && !taken.contains(card)
}

/// The seven (or fewer) cards that a player can use: the two private cards,
/// then the board.
pub open spec fn player_cards(hole: (Card, Card), board: Seq<Card>) -> Seq<Card> {
    seq![hole.0, hole.1] + board
}

/// The cards of a replay come from one deck: no card is in two places, the
/// cards are of the 52, and they are 52 together.
pub open spec fn is_dealt(view: GameView) -> bool {
    &&& view.deck.no_duplicates()
    &&& view.board.no_duplicates()
    &&& hole_flat(view.hole_cards).no_duplicates()
    &&& view.deck.disjoint(view.board)
    &&& view.deck.disjoint(hole_flat(view.hole_cards))
    &&& view.board.disjoint(hole_flat(view.hole_cards))
    &&& forall|i: int| 0 <= i < view.deck.len() ==> (#[trigger] view.deck[i]).wf()
    &&& forall|i: int| 0 <= i < view.board.len() ==> (#[trigger] view.board[i]).wf()
    &&& forall|i: int|
        0 <= i < 2 * view.hole_cards.len() ==> (#[trigger] hole_flat(view.hole_cards)[i]).wf()
    &&& view.deck.len() + view.board.len() + 2 * view.hole_cards.len() == 52
}

/// The outcome of a showdown: no five cards that any player can choose are
/// stronger than the winning hands, and the winners are the players, in
/// ascending order, who can choose five cards as strong as that, each with
/// the best hand of that player.
pub open spec fn is_showdown(view: GameView, winners: Seq<(usize, Hand)>) -> bool {
    &&& winners.len() >= 1
    &&& forall|i: int|
        0 <= i < winners.len() ==> (#[trigger] winners[i]).0 < view.hole_cards.len()
            && is_best_hand(
            winners[i].1,
            player_cards(view.hole_cards[winners[i].0 as int], view.board),
        )
    &&& forall|i: int, j: int|
        0 <= i < j < winners.len() ==> (#[trigger] winners[i]).0 < (#[trigger] winners[j]).0
    &&& forall|i: int|
        0 <= i < winners.len() ==> (#[trigger] winners[i]).1.strength()
            == winners[0].1.strength()
    &&& forall|player: int, picks: Seq<usize>|
        #![trigger selected(player_cards(view.hole_cards[player], view.board), picks)]
        0 <= player < view.hole_cards.len() && is_selection(
            picks,
            5,
            player_cards(view.hole_cards[player], view.board).len(),
        ) ==> strength_le(
            strength_of(selected(player_cards(view.hole_cards[player], view.board), picks)),
            winners[0].1.strength(),
        ) && (strength_of(selected(player_cards(view.hole_cards[player], view.board), picks))
            == winners[0].1.strength() ==> exists|i: int|
            0 <= i < winners.len() && (#[trigger] winners[i]).0 == player)
}

/// `winners` are the players who win some replay of the table: the cards come
/// from one deck, the board is the known board completed to five cards, and
/// the winners are those of the showdown, in ascending order.
pub open spec fn is_replay_outcome(
    board: Seq<Card>,
    hole_cards: Seq<(Card, Card)>,
    winners: Seq<usize>,
) -> bool {
    exists|view: GameView, showdown: Seq<(usize, Hand)>|
        {
            &&& is_dealt(view)
            &&& view.hole_cards == hole_cards
            &&& view.board.len() == if board.len() < 5 {
                5
            } else {
                board.len()
            }
            &&& view.board.take(board.len() as int) == board
            &&& #[trigger] is_showdown(view, showdown)
            &&& winners.len() == showdown.len()
            &&& forall|i: int| 0 <= i < winners.len() ==> winners[i] == showdown[i].0
        }
}

impl GameSpec {
    /// The cards that the table names, board first.
    pub open spec fn cards(&self) -> Seq<Card> {
        dealt_cards(self.board@, self.hole_cards@)
    }
}

impl View for Game {
    type V = GameView;

    closed spec fn view(&self) -> GameView {
        GameView { deck: self.deck@, board: self.board@, hole_cards: self.hole_cards@ }
    }
}

fn find_card(deck: &Vec<Card>, card: Card) -> (found: Option<usize>)
    ensures
        match found {
            Some(at) => at < deck@.len() && deck@[at as int] == card,
            None => !deck@.contains(card),
        },
{
    let mut at: usize = 0;
    while at < deck.len()
        invariant
            at <= deck.len(),
            forall|i: int| 0 <= i < at ==> deck@[i] != card,
        decreases deck.len() - at,
    {
        if deck[at] == card {
            return Some(at);
        }
        at = at + 1;
    }
    None
}

proof fn lemma_take_step(deck: Seq<Card>, cards: Seq<Card>, done: int, at: int)
    requires
        0 <= done < cards.len(),
        is_deck_without(deck, cards.take(done)),
        0 <= at < deck.len(),
        deck[at] == cards[done],
    ensures
        is_deck_without(deck.remove(at), cards.take(done + 1)),
        is_available(cards, done),
{
    let card = cards[done];
    let taken = cards.take(done);
    let rest = deck.remove(at);
    let more = cards.take(done + 1);
    assert(more =~= taken.push(card));
    assert(deck.contains(card));
    assert forall|j: int| 0 <= j < done implies cards[j] != card by {
        if cards[j] == card {
            assert(taken[j] == card);
            assert(taken.contains(card));
        }
    }
    assert forall|i: int, j: int| 0 <= i < rest.len() && 0 <= j < rest.len() && i
        != j implies rest[i] != rest[j] by {
        let a = if i < at {
            i
        } else {
            i + 1
        };
        let b = if j < at {
            j
        } else {
            j + 1
        };
        assert(rest[i] == deck[a] && rest[j] == deck[b]);
    }
    assert forall|other: Card| #[trigger]
        rest.contains(other) <==> other.wf() && !more.contains(other) by {
        if rest.contains(other) {
            let i = choose|i: int| 0 <= i < rest.len() && rest[i] == other;
            let a = if i < at {
                i
            } else {
                i + 1
            };
            assert(deck[a] == other);
            assert(deck.contains(other));
            if more.contains(other) {
                let k = choose|k: int| 0 <= k < more.len() && more[k] == other;
                if k < done {
                    assert(taken[k] == other);
                    assert(taken.contains(other));
                }
            }
        }
        if other.wf() && !more.contains(other) {
            assert(!taken.contains(other)) by {
                if taken.contains(other) {
                    let k = choose|k: int| 0 <= k < taken.len() && taken[k] == other;
                    assert(more[k] == other);
                }
            }
            assert(more[done] == card);
            assert(other != card);
            assert(deck.contains(other));
            let a = choose|a: int| 0 <= a < deck.len() && deck[a] == other;
            let i = if a < at {
                a
            } else {
                a - 1
            };
            assert(rest[i] == other);
        }
    }
}

proof fn lemma_take_fails(deck: Seq<Card>, cards: Seq<Card>, done: int)
    requires
        0 <= done < cards.len(),
        is_deck_without(deck, cards.take(done)),
        !deck.contains(cards[done]),
    ensures
        !is_available(cards, done),
{
    let taken = cards.take(done);
    if cards[done].wf() {
        assert(taken.contains(cards[done]));
        let k = choose|k: int| 0 <= k < taken.len() && taken[k] == cards[done];
        assert(cards[k] == cards[done]);
    }
}

/// The deck that is left when the cards are taken from a fresh deck one after
/// the other; the first card that is not there to be taken is the error.
fn remaining_deck(cards: &Vec<Card>) -> (result: Result<Vec<Card>, SetupError>)
    ensures
        match result {
            Ok(deck) => {
                &&& forall|at: int| 0 <= at < cards@.len() ==> is_available(cards@, at)
                &&& is_deck_without(deck@, cards@)
                &&& deck@.len() + cards@.len() == 52
            },
            Err(SetupError::CardNotFound(card)) => is_first_unavailable(cards@, card),
            Err(_) => false,
        },
{
    let mut deck = Card::create_deck();
    proof {
        lemma_full_deck_distinct();
        assert forall|card: Card| #[trigger]
            deck@.contains(card) <==> card.wf() && !cards@.take(0).contains(card) by {
            lemma_full_deck_complete(card);
        }
    }
    let mut done: usize = 0;
    while done < cards.len()
        invariant
            done <= cards.len(),
            is_deck_without(deck@, cards@.take(done as int)),
            deck@.len() + done == 52,
            forall|at: int| 0 <= at < done ==> is_available(cards@, at),
        decreases cards.len() - done,
    {
        match find_card(&deck, cards[done]) {
            Some(at) => {
                proof {
                    lemma_take_step(deck@, cards@, done as int, at as int);
                }
                deck.remove(at);
            },
            None => {
                proof {
                    lemma_take_fails(deck@, cards@, done as int);
                }
                return Err(SetupError::CardNotFound(cards[done]));
            },
        }
        done = done + 1;
    }
    assert(cards@.take(cards@.len() as int) =~= cards@);
    Ok(deck)
}

fn wanted_cards(spec: &GameSpec) -> (cards: Vec<Card>)
    ensures
        cards@ == spec.cards(),
{
    let mut cards: Vec<Card> = Vec::new();
    let mut n: usize = 0;
    while n < spec.board.len()
        invariant
            n <= spec.board.len(),
            cards@ == spec.board@.take(n as int),
        decreases spec.board.len() - n,
    {
        cards.push(spec.board[n]);
        assert(spec.board@.take(n + 1) =~= spec.board@.take(n as int).push(spec.board@[n as int]));
        n = n + 1;
    }
    assert(spec.board@.take(spec.board@.len() as int) =~= spec.board@);
    let mut n: usize = 0;
    while n < spec.hole_cards.len()
        invariant
            n <= spec.hole_cards.len(),
            cards@.len() == spec.board@.len() + 2 * n,
            forall|i: int| 0 <= i < spec.board@.len() ==> cards@[i] == spec.board@[i],
            forall|i: int|
                0 <= i < 2 * n ==> cards@[spec.board@.len() + i] == hole_flat(spec.hole_cards@)[i],
        decreases spec.hole_cards.len() - n,
    {
        let pair = spec.hole_cards[n];
        cards.push(pair.0);
        cards.push(pair.1);
        n = n + 1;
    }
    assert(cards@ =~= spec.cards());
    cards
}

fn copy_cards(cards: &Vec<Card>) -> (copy: Vec<Card>)
    ensures
        copy@ == cards@,
{
    let mut copy: Vec<Card> = Vec::new();
    let mut n: usize = 0;
    while n < cards.len()
        invariant
            n <= cards.len(),
            copy@ == cards@.take(n as int),
        decreases cards.len() - n,
    {
        copy.push(cards[n]);
        assert(cards@.take(n + 1) =~= cards@.take(n as int).push(cards@[n as int]));
        n = n + 1;
    }
    assert(cards@.take(cards@.len() as int) =~= cards@);
    copy
}

fn copy_pairs(pairs: &Vec<(Card, Card)>) -> (copy: Vec<(Card, Card)>)
    ensures
        copy@ == pairs@,
{
    let mut copy: Vec<(Card, Card)> = Vec::new();
    let mut n: usize = 0;
    while n < pairs.len()
        invariant
            n <= pairs.len(),
            copy@ == pairs@.take(n as int),
        decreases pairs.len() - n,
    {
        copy.push(pairs[n]);
        assert(pairs@.take(n + 1) =~= pairs@.take(n as int).push(pairs@[n as int]));
        n = n + 1;
    }
    assert(pairs@.take(pairs@.len() as int) =~= pairs@);
    copy
}

/// A rearrangement of a deck without duplicates is one too, with the same
/// cards.
proof fn lemma_rearranged(before: Seq<Card>, after: Seq<Card>, taken: Seq<Card>)
    requires
        is_deck_without(before, taken),
        after.to_multiset() == before.to_multiset(),
    ensures
        is_deck_without(after, taken),
        after.len() == before.len(),
{
    to_multiset_len(before);
    to_multiset_len(after);
    before.lemma_multiset_has_no_duplicates();
    after.lemma_multiset_has_no_duplicates_conv();
    assert forall|card: Card| #[trigger]
        after.contains(card) <==> card.wf() && !taken.contains(card) by {
        to_multiset_contains(before, card);
        to_multiset_contains(after, card);
    }
}

/// A deck without the cards of a valid table, together with that table, is a
/// deal from one deck.
proof fn lemma_dealt(deck: Seq<Card>, board: Seq<Card>, hole_cards: Seq<(Card, Card)>)
    requires
        is_deck_without(deck, dealt_cards(board, hole_cards)),
        deck.len() + dealt_cards(board, hole_cards).len() == 52,
        forall|at: int|
            0 <= at < dealt_cards(board, hole_cards).len() ==> is_available(
                dealt_cards(board, hole_cards),
                at,
            ),
    ensures
        is_dealt(GameView { deck, board, hole_cards }),
{
    let cards = dealt_cards(board, hole_cards);
    let flat = hole_flat(hole_cards);
    assert forall|i: int, j: int| 0 <= i < cards.len() && 0 <= j < cards.len() && i
        != j implies cards[i] != cards[j] by {
        if i < j {
            assert(is_available(cards, j));
        } else {
            assert(is_available(cards, i));
        }
    }
    assert forall|i: int, j: int| 0 <= i < board.len() && 0 <= j < board.len() && i
        != j implies board[i] != board[j] by {
        assert(cards[i] == board[i] && cards[j] == board[j]);
    }
    assert forall|i: int, j: int| 0 <= i < flat.len() && 0 <= j < flat.len() && i
        != j implies flat[i] != flat[j] by {
        assert(cards[board.len() + i] == flat[i] && cards[board.len() + j] == flat[j]);
    }
    assert forall|i: int, j: int| 0 <= i < board.len() && 0 <= j < flat.len() implies board[i]
        != flat[j] by {
        assert(cards[i] == board[i] && cards[board.len() + j] == flat[j]);
    }
    assert forall|i: int, j: int| 0 <= i < deck.len() && 0 <= j < board.len() implies deck[i]
        != board[j] by {
        assert(deck.contains(deck[i]));
        assert(cards[j] == board[j]);
        assert(cards.contains(board[j]));
    }
    assert forall|i: int, j: int| 0 <= i < deck.len() && 0 <= j < flat.len() implies deck[i]
        != flat[j] by {
        assert(deck.contains(deck[i]));
        assert(cards[board.len() + j] == flat[j]);
        assert(cards.contains(flat[j]));
    }
    assert forall|i: int| 0 <= i < deck.len() implies (#[trigger] deck[i]).wf() by {
        assert(deck.contains(deck[i]));
    }
    assert forall|i: int| 0 <= i < board.len() implies (#[trigger] board[i]).wf() by {
        assert(is_available(cards, i));
    }
    assert forall|i: int| 0 <= i < 2 * hole_cards.len() implies (#[trigger] flat[i]).wf() by {
        assert(is_available(cards, board.len() + i));
        assert(cards[board.len() + i] == flat[i]);
    }
}

/// A player's two cards and the board of a deal are all different.
proof fn lemma_player_cards_distinct(view: GameView, player: int)
    requires
        is_dealt(view),
        0 <= player < view.hole_cards.len(),
    ensures
        player_cards(view.hole_cards[player], view.board).no_duplicates(),
{
    let hole = view.hole_cards[player];
    let cards = player_cards(hole, view.board);
    let flat = hole_flat(view.hole_cards);
    assert(flat[2 * player] == hole.0);
    assert(flat[2 * player + 1] == hole.1);
    assert forall|i: int, j: int| 0 <= i < cards.len() && 0 <= j < cards.len() && i
        != j implies cards[i] != cards[j] by {
        if i >= 2 {
            assert(cards[i] == view.board[i - 2]);
        }
        if j >= 2 {
            assert(cards[j] == view.board[j - 2]);
        }
    }
}

impl Game {
    /// The cards of the replay come from one deck.
    pub open spec fn wf(&self) -> bool {
        is_dealt(self@)
    }

    /// Sets up a replay: takes the cards that the table names from a fresh
    /// deck, board first, and shuffles the rest into the draw pile. Fails on
    /// the first card that cannot be taken.
    pub fn from_spec(spec: &GameSpec) -> (result: Result<Game, SetupError>)
        ensures
            match result {
                Ok(game) => {
                    &&& game.wf()
                    &&& game@.board == spec.board@
                    &&& game@.hole_cards == spec.hole_cards@
                    &&& is_deck_without(game@.deck, spec.cards())
                    &&& forall|at: int|
                        0 <= at < spec.cards().len() ==> is_available(spec.cards(), at)
                },
                Err(SetupError::CardNotFound(card)) => is_first_unavailable(spec.cards(), card),
                Err(_) => false,
            },
    {
        let cards = wanted_cards(spec);
        match remaining_deck(&cards) {
            Ok(deck) => {
                let mut deck = deck;
                let ghost unshuffled = deck@;
                shuffle_cards(&mut deck);
                let board = copy_cards(&spec.board);
                let hole_cards = copy_pairs(&spec.hole_cards);
                proof {
                    lemma_rearranged(unshuffled, deck@, cards@);
                    lemma_dealt(deck@, board@, hole_cards@);
                }
                Ok(Game { deck, board, hole_cards })
            },
            Err(error) => Err(error),
        }
    }

    /// Sets up a replay with a draw pile that the caller has arranged: the
    /// last card of `deck` is drawn first. Fails like [`Game::from_spec`], and
    /// also where `deck` is not the rest of the deck.
    pub fn with_deck(spec: &GameSpec, deck: Vec<Card>) -> (result: Result<Game, SetupError>)
        ensures
            match result {
                Ok(game) => {
                    &&& game.wf()
                    &&& game@.board == spec.board@
                    &&& game@.hole_cards == spec.hole_cards@
                    &&& game@.deck == deck@
                    &&& is_deck_without(deck@, spec.cards())
                    &&& forall|at: int|
                        0 <= at < spec.cards().len() ==> is_available(spec.cards(), at)
                },
                Err(SetupError::CardNotFound(card)) => is_first_unavailable(spec.cards(), card),
                Err(SetupError::DeckMismatch) => {
                    &&& forall|at: int|
                        0 <= at < spec.cards().len() ==> is_available(spec.cards(), at)
                    &&& !is_deck_without(deck@, spec.cards())
                },
                Err(_) => false,
            },
    {
        let cards = wanted_cards(spec);
        match remaining_deck(&cards) {
            Ok(rest) => {
                if !is_rearranged(&deck, &rest) {
                    proof {
                        if is_deck_without(deck@, cards@) {
                            lemma_same_cards(deck@, rest@, cards@);
                        }
                    }
                    return Err(SetupError::DeckMismatch);
                }
                let board = copy_cards(&spec.board);
                let hole_cards = copy_pairs(&spec.hole_cards);
                proof {
                    lemma_rearranged(rest@, deck@, cards@);
                    lemma_dealt(deck@, board@, hole_cards@);
                }
                Ok(Game { deck, board, hole_cards })
            },
            Err(error) => Err(error),
        }
    }

    /// The community cards shown so far.
    pub fn board(&self) -> (board: &Vec<Card>)
        ensures
            board@ == self@.board,
    {
        &self.board
    }

    /// The draw pile; its last card is drawn next.
    pub fn deck(&self) -> (deck: &Vec<Card>)
        ensures
            deck@ == self@.deck,
    {
        &self.deck
    }

    /// Completes the board to five cards, drawing from the end of the pile.
    /// A board of five or more cards is left as it is.
    pub fn deal_down_to_river(&mut self)
        requires
            old(self).wf(),
            old(self)@.board.len() + old(self)@.deck.len() >= 5,
        ensures
            final(self).wf(),
            final(self)@.hole_cards == old(self)@.hole_cards,
            final(self)@.board.len() >= 5,
            old(self)@.board.len() >= 5 ==> final(self)@ == old(self)@,
            old(self)@.board.len() < 5 ==> {
                let drawn = 5 - old(self)@.board.len();
                let left = old(self)@.deck.len() - drawn;
                &&& final(self)@.deck == old(self)@.deck.take(left)
                &&& final(self)@.board == old(self)@.board + Seq::new(
                    drawn as nat,
                    |i: int| old(self)@.deck[old(self)@.deck.len() - 1 - i],
                )
            },
    {
        let cards_in_board = self.board.len();
        let mut n: usize = cards_in_board;
        while n < 5
            invariant
                cards_in_board == old(self)@.board.len(),
                cards_in_board <= n,
                cards_in_board < 5 ==> n <= 5,
                cards_in_board >= 5 ==> self@ == old(self)@,
                old(self).wf(),
                self.wf(),
                old(self)@.board.len() + old(self)@.deck.len() >= 5,
                self@.hole_cards == old(self)@.hole_cards,
                cards_in_board < 5 ==> {
                    &&& self@.deck == old(self)@.deck.take(
                        old(self)@.deck.len() - (n - cards_in_board),
                    )
                    &&& self@.board == old(self)@.board + Seq::new(
                        (n - cards_in_board) as nat,
                        |i: int| old(self)@.deck[old(self)@.deck.len() - 1 - i],
                    )
                },
            decreases 5 - n,
        {
            let ghost before = self@;
            let card = self.deck.pop().unwrap();
            self.board.push(card);
            proof {
                let after = self@;
                assert(after.deck =~= before.deck.drop_last());
                assert(after.board =~= before.board.push(card));
                assert(before.deck[before.deck.len() - 1] == card);
                assert forall|i: int, j: int|
                    0 <= i < after.board.len() && 0 <= j < after.board.len() && i
                        != j implies after.board[i] != after.board[j] by {
                    if i < before.board.len() && j < before.board.len() {
                        assert(before.board[i] != before.board[j]);
                    }
                }
                assert(after.deck =~= old(self)@.deck.take(
                    old(self)@.deck.len() - (n + 1 - cards_in_board),
                ));
                assert(after.board =~= old(self)@.board + Seq::new(
                    (n + 1 - cards_in_board) as nat,
                    |i: int| old(self)@.deck[old(self)@.deck.len() - 1 - i],
                ));
            }
            n = n + 1;
        }
    }

    /// The best hand of each player, in the order of the players.
    pub fn get_player_hands(&self) -> (hands: Vec<Hand>)
        requires
            self.wf(),
            self@.board.len() >= 3,
        ensures
            hands@.len() == self@.hole_cards.len(),
            forall|player: int|
                0 <= player < hands@.len() ==> is_best_hand(
                    #[trigger] hands@[player],
                    player_cards(self@.hole_cards[player], self@.board),
                ),
    {
        let mut hands: Vec<Hand> = Vec::new();
        let mut player: usize = 0;
        while player < self.hole_cards.len()
            invariant
                player <= self.hole_cards.len(),
                self.wf(),
                self@.board.len() >= 3,
                hands@.len() == player,
                forall|earlier: int|
                    0 <= earlier < player ==> is_best_hand(
                        #[trigger] hands@[earlier],
                        player_cards(self@.hole_cards[earlier], self@.board),
                    ),
            decreases self.hole_cards.len() - player,
        {
            proof {
                lemma_player_cards_distinct(self@, player as int);
                lemma_distinct_cards_all_rated(
                    player_cards(self@.hole_cards[player as int], self@.board),
                );
            }
            let hand = self.get_scoring_hand_for_player(&self.hole_cards[player]);
            hands.push(hand);
            player = player + 1;
        }
        hands
    }

    /// The players who win the pot, in ascending order, each with the hand
    /// that wins: one player, or several who split.
    pub fn get_winning_players_and_hands(&self) -> (winners: Vec<(usize, Hand)>)
        requires
            self.wf(),
            self@.board.len() >= 3,
            self@.hole_cards.len() >= 1,
        ensures
            is_showdown(self@, winners@),
    {
        let mut player_hands = self.get_player_hands();
        let ghost hands = player_hands@;
        let mut best_level: u8 = player_hands[0].level;
        let mut best_score: u64 = player_hands[0].score;
        let mut player: usize = 1;
        while player < player_hands.len()
            invariant
                1 <= player <= player_hands.len(),
                player_hands@ == hands,
                exists|at: int|
                    0 <= at < player && (#[trigger] hands[at]).strength() == (
                        best_level,
                        best_score,
                    ),
                forall|at: int|
                    0 <= at < player ==> strength_le(
                        (#[trigger] hands[at]).strength(),
                        (best_level, best_score),
                    ),
            decreases player_hands.len() - player,
        {
            let hand = &player_hands[player];
            if hand.level > best_level || (hand.level == best_level && hand.score > best_score) {
                best_level = hand.level;
                best_score = hand.score;
            }
            player = player + 1;
        }
        let mut winners: Vec<(usize, Hand)> = Vec::new();
        while player_hands.len() > 0
            invariant
                player_hands@ == hands.take(player_hands@.len() as int),
                player_hands@.len() <= hands.len(),
                forall|i: int|
                    0 <= i < winners@.len() ==> player_hands@.len() <= (#[trigger] winners@[i]).0
                        < hands.len() && winners@[i].1 == hands[winners@[i].0 as int]
                        && winners@[i].1.strength() == (best_level, best_score),
                forall|i: int, j: int|
                    0 <= i < j < winners@.len() ==> (#[trigger] winners@[i]).0 < (
                    #[trigger] winners@[j]).0,
                forall|at: int|
                    player_hands@.len() <= at < hands.len() && (#[trigger] hands[at]).strength()
                        == (best_level, best_score) ==> exists|i: int|
                        0 <= i < winners@.len() && (#[trigger] winners@[i]).0 == at,
            decreases player_hands.len(),
        {
            let player = player_hands.len() - 1;
            let ghost before = winners@;
            let hand = player_hands.pop().unwrap();
            assert(hand == hands[player as int]);
            if hand.level == best_level && hand.score == best_score {
                winners.insert(0, (player, hand));
                proof {
                    assert(winners@[0] == (player, hand));
                    assert forall|i: int| 1 <= i < winners@.len() implies winners@[i]
                        == before[i - 1] by {}
                    assert forall|at: int|
                        player_hands@.len() <= at < hands.len() && (#[trigger] hands[at]).strength()
                            == (best_level, best_score) implies exists|i: int|
                        0 <= i < winners@.len() && (#[trigger] winners@[i]).0 == at by {
                        if at == player {
                            assert(winners@[0].0 == at);
                        } else {
                            let i = choose|i: int|
                                0 <= i < before.len() && (#[trigger] before[i]).0 == at;
                            assert(winners@[i + 1].0 == at);
                        }
                    }
                }
            }
        }
        proof {
            let top = choose|at: int|
                0 <= at < hands.len() && (#[trigger] hands[at]).strength() == (
                    best_level,
                    best_score,
                );
            let first = choose|i: int|
                0 <= i < winners@.len() && (#[trigger] winners@[i]).0 == top;
            assert(winners@[first].1.strength() == (best_level, best_score));
            assert(winners@[0].1.strength() == (best_level, best_score));
            assert forall|player: int, picks: Seq<usize>|
                0 <= player < self@.hole_cards.len() && is_selection(
                    picks,
                    5,
                    player_cards(self@.hole_cards[player], self@.board).len(),
                ) implies strength_le(
                strength_of(selected(player_cards(self@.hole_cards[player], self@.board), picks)),
                winners@[0].1.strength(),
            ) && (strength_of(
                selected(player_cards(self@.hole_cards[player], self@.board), picks),
            ) == winners@[0].1.strength() ==> exists|i: int|
                0 <= i < winners@.len() && (#[trigger] winners@[i]).0 == player) by {
                let cards = player_cards(self@.hole_cards[player], self@.board);
                assert(is_best_hand(hands[player], cards));
                let best = choose|best: Seq<usize>| #[trigger]
                    is_best_selection(cards, best) && hands[player].cards@ == selected(
                        cards,
                        best,
                    );
                assert(strength_le(
                    strength_of(selected(cards, picks)),
                    strength_of(selected(cards, best)),
                ));
                assert(strength_le(hands[player].strength(), (best_level, best_score)));
            }
        }
        winners
    }

    /// The best hand that two private cards make with the board, where the
    /// board shows three cards or more and any five of the cards can be rated.
    pub fn get_scoring_hand_for_player(&self, player_hole_cards: &(Card, Card)) -> (hand: Hand)
        requires
            3 <= self@.board.len() <= 50,
            all_selections_rated(player_cards(*player_hole_cards, self@.board)),
        ensures
            is_best_hand(hand, player_cards(*player_hole_cards, self@.board)),
    {
        let mut all_cards: Vec<Card> = Vec::new();
        all_cards.push(player_hole_cards.0);
        all_cards.push(player_hole_cards.1);
        let mut n: usize = 0;
        while n < self.board.len()
            invariant
                n <= self.board.len(),
                all_cards@ == seq![player_hole_cards.0, player_hole_cards.1] + self.board@.take(
                    n as int,
                ),
            decreases self.board.len() - n,
        {
            all_cards.push(self.board[n]);
            assert(self.board@.take(n + 1) =~= self.board@.take(n as int).push(
                self.board@[n as int],
            ));
            assert(all_cards@ =~= seq![player_hole_cards.0, player_hole_cards.1]
                + self.board@.take(n + 1));
            n = n + 1;
        }
        assert(self.board@.take(self.board@.len() as int) =~= self.board@);
        best_hand(&all_cards)
    }
}

/// Two decks without the same cards are rearrangements of each other.
proof fn lemma_same_cards(a: Seq<Card>, b: Seq<Card>, taken: Seq<Card>)
    requires
        is_deck_without(a, taken),
        is_deck_without(b, taken),
    ensures
        a.to_multiset() == b.to_multiset(),
{
    a.lemma_multiset_has_no_duplicates();
    b.lemma_multiset_has_no_duplicates();
    assert forall|card: Card| a.to_multiset().count(card) == b.to_multiset().count(card) by {
        to_multiset_contains(a, card);
        to_multiset_contains(b, card);
        assert(a.contains(card) <==> b.contains(card));
        if a.contains(card) {
            assert(a.to_multiset().contains(card));
            assert(b.to_multiset().contains(card));
        }
    }
    assert(a.to_multiset() =~= b.to_multiset());
}

/// Whether `deck` holds the cards of `rest`, each as often.
fn is_rearranged(deck: &Vec<Card>, rest: &Vec<Card>) -> (same: bool)
    ensures
        same == (deck@.to_multiset() == rest@.to_multiset()),
{
    if deck.len() != rest.len() {
        proof {
            to_multiset_len(deck@);
            to_multiset_len(rest@);
        }
        return false;
    }
    let mut left = copy_cards(rest);
    let mut n: usize = 0;
    proof {
        broadcast use vstd::multiset::group_multiset_axioms;

        assert(deck@.take(0) =~= Seq::<Card>::empty());
        to_multiset_len(deck@.take(0));
        assert(deck@.take(0).to_multiset() =~= vstd::multiset::Multiset::empty());
        assert(deck@.take(0).to_multiset().add(left@.to_multiset()) =~= rest@.to_multiset());
    }
    while n < deck.len()
        invariant
            n <= deck.len(),
            deck@.len() == rest@.len(),
            left@.len() + n == rest@.len(),
            deck@.take(n as int).to_multiset().add(left@.to_multiset()) == rest@.to_multiset(),
        decreases deck.len() - n,
    {
        let ghost head = deck@.take(n as int);
        let ghost card = deck@[n as int];
        proof {
            assert(deck@.take(n + 1) =~= head.push(card));
            to_multiset_build(head, card);
        }
        match find_card(&left, deck[n]) {
            Some(at) => {
                proof {
                    to_multiset_remove(left@, at as int);
                    assert(head.to_multiset().insert(card).add(left@.to_multiset().remove(card))
                        =~= head.to_multiset().add(left@.to_multiset())) by {
                        broadcast use vstd::multiset::group_multiset_axioms;

                        to_multiset_contains(left@, card);
                    }
                }
                left.remove(at);
            },
            None => {
                proof {
                    broadcast use vstd::multiset::group_multiset_axioms;

                    to_multiset_contains(left@, card);
                    to_multiset_contains(head, card);
                    assert(deck@.contains(card));
                    to_multiset_contains(deck@, card);
                    let tail = deck@.skip(n as int);
                    assert(deck@ =~= head + tail);
                    lemma_multiset_commutative(head, tail);
                    assert(tail[0] == card);
                    assert(tail.contains(card));
                    to_multiset_contains(tail, card);
                    assert(deck@.to_multiset().count(card) > rest@.to_multiset().count(card));
                }
                return false;
            },
        }
        n = n + 1;
    }
    proof {
        assert(deck@.take(deck@.len() as int) =~= deck@);
        assert(left@ =~= Seq::<Card>::empty());
        to_multiset_len(left@);
        assert(left@.to_multiset() =~= vstd::multiset::Multiset::empty()) by {
            broadcast use vstd::multiset::group_multiset_axioms;

        }
        assert(deck@.to_multiset() =~= rest@.to_multiset()) by {
            broadcast use vstd::multiset::group_multiset_axioms;

        }
    }
    true
}

} // verus!
