//! One round of play: the round counter, the cards submitted so far, and
//! what the table is waiting for.

use vstd::prelude::*;

use crate::order::{
    insert_by, lemma_insert_keeps_order, lemma_slot_for, lemma_slot_is, ordered_by, slot_for,
};
use crate::player::same_text;

verus! {

/// The last round of a game.
pub const LAST_ROUND: u8 = 10;

/// The number of the round being played; the first round is round one.
#[derive(Debug, PartialEq, Eq, Copy, Clone, Structural)]
pub struct Round(pub u8);

impl Round {
    /// Moves on to the next round and tells whether the game is over.
    pub fn inc(&mut self) -> (over: bool)
        requires
            old(self).0 < u8::MAX,
        ensures
            final(self).0 == old(self).0 + 1,
            over == (final(self).0 > LAST_ROUND),
    {
        self.0 = self.0 + 1;
        self.0 > LAST_ROUND
    }
}

/// Why a play or a pile choice was turned down.
#[derive(Debug, PartialEq, Eq, Copy, Clone, Structural)]
pub enum PlacementError {
    /// The turn awaits the other kind of move.
    PlacementOutOfTurn,
    /// The player has already submitted a card this round.
    RepeatedPlacement,
    /// The player does not hold the card.
    CardNotInHand,
    /// No player has the identity.
    NoUser,
    /// The pile choice belongs to another player.
    WrongPlayer,
}

/// One submission: who played which card.
pub struct PlayView {
    pub player: Seq<char>,
    pub card: u8,
}

/// Submissions are ordered by their cards.
pub open spec fn by_card() -> spec_fn(PlayView) -> int {
    |play: PlayView| play.card as int
}

/// The player has a submission among the plays.
pub open spec fn has_played(plays: Seq<PlayView>, id: Seq<char>) -> bool {
    exists|k: int| 0 <= k < plays.len() && (#[trigger] plays[k]).player == id
}

/// Where the submission of the player stands among the plays.
pub open spec fn entry_of(plays: Seq<PlayView>, id: Seq<char>) -> int {
    choose|k: int| 0 <= k < plays.len() && (#[trigger] plays[k]).player == id
}

/// The card the player has submitted, if any.
pub open spec fn played_by(plays: Seq<PlayView>, id: Seq<char>) -> Option<u8> {
    if has_played(plays, id) {
        Some(plays[entry_of(plays, id)].card)
    } else {
        None
    }
}

/// The plays with one more submission, behind every card that is not higher.
pub open spec fn submitted(plays: Seq<PlayView>, id: Seq<char>, card: u8) -> Seq<PlayView> {
    insert_by(plays, PlayView { player: id, card }, by_card())
}

/// The plays without the submission of the player.
pub open spec fn withdrawn(plays: Seq<PlayView>, id: Seq<char>) -> Seq<PlayView> {
    if has_played(plays, id) {
        plays.remove(entry_of(plays, id))
    } else {
        plays
    }
}

/// The plays are in order of their cards, one at most for each player.
pub open spec fn buffer_wf(plays: Seq<PlayView>) -> bool {
    &&& ordered_by(plays, by_card())
    &&& forall|a: int, b: int|
        0 <= a < b < plays.len() ==> (#[trigger] plays[a]).player != (#[trigger] plays[b]).player
}

/// In a valid buffer a player has one entry.
pub proof fn lemma_entry_of(plays: Seq<PlayView>, k: int)
    requires
        buffer_wf(plays),
        0 <= k < plays.len(),
    ensures
        has_played(plays, plays[k].player),
        entry_of(plays, plays[k].player) == k,
        played_by(plays, plays[k].player) == Some(plays[k].card),
{
    let e = entry_of(plays, plays[k].player);
    if e < k {
        assert(plays[e].player != plays[k].player);
    } else if k < e {
        assert(plays[k].player != plays[e].player);
    }
}

/// A submission by a player who has none yet keeps the buffer valid, makes
/// it one longer, and adds that player to those who have played.
pub proof fn lemma_submitted(plays: Seq<PlayView>, id: Seq<char>, card: u8)
    requires
        buffer_wf(plays),
        !has_played(plays, id),
    ensures
        buffer_wf(submitted(plays, id, card)),
        submitted(plays, id, card).len() == plays.len() + 1,
        forall|other: Seq<char>|
            has_played(submitted(plays, id, card), other) <==> (other == id || has_played(
                plays,
                other,
            )),
        played_by(submitted(plays, id, card), id) == Some(card),
        forall|other: Seq<char>|
            other != id ==> played_by(submitted(plays, id, card), other) == played_by(plays, other),
{
    let play = PlayView { player: id, card };
    let after = submitted(plays, id, card);
    let j = slot_for(plays, play, by_card());
    lemma_slot_for(plays, play, by_card());
    lemma_insert_keeps_order(plays, play, by_card());
    assert forall|a: int| 0 <= a < after.len() implies (#[trigger] after[a]) == (if a < j {
        plays[a]
    } else if a == j {
        play
    } else {
        plays[a - 1]
    }) by {}
    assert forall|a: int, b: int| 0 <= a < b < after.len() implies (#[trigger] after[a]).player != (
    #[trigger] after[b]).player by {
        let a0 = if a < j { a } else { a - 1 };
        let b0 = if b < j { b } else { b - 1 };
        if a == j {
            assert(plays[b0].player != id);
        } else if b == j {
            assert(plays[a0].player != id);
        } else {
            assert(plays[a0].player != plays[b0].player);
        }
    }
    assert(after[j].player == id);
    lemma_entry_of(after, j);
    assert forall|other: Seq<char>|
        has_played(after, other) <==> (other == id || has_played(plays, other)) by {
        if has_played(after, other) {
            let a = entry_of(after, other);
            if a != j {
                let a0 = if a < j { a } else { a - 1 };
                assert(plays[a0].player == other);
            }
        }
        if has_played(plays, other) {
            let a0 = entry_of(plays, other);
            let a = if a0 < j { a0 } else { a0 + 1 };
            assert(after[a].player == other);
        }
    }
    assert forall|other: Seq<char>| other != id implies played_by(after, other) == played_by(
        plays,
        other,
    ) by {
        if has_played(plays, other) {
            let a0 = entry_of(plays, other);
            let a = if a0 < j { a0 } else { a0 + 1 };
            assert(after[a] == plays[a0]);
            lemma_entry_of(after, a);
        }
    }
}

/// Taking an entry out keeps the buffer valid.
pub proof fn lemma_withdrawn(plays: Seq<PlayView>, id: Seq<char>)
    requires
        buffer_wf(plays),
    ensures
        buffer_wf(withdrawn(plays, id)),
        !has_played(withdrawn(plays, id), id),
{
    if has_played(plays, id) {
        let k = entry_of(plays, id);
        let after = plays.remove(k);
        assert forall|a: int| 0 <= a < after.len() implies (#[trigger] after[a]) == plays[if a < k {
            a
        } else {
            a + 1
        }] by {}
        assert forall|a: int, b: int| 0 <= a < b < after.len() implies by_card()(after[a])
            <= by_card()(after[b]) by {
            let a0 = if a < k { a } else { a + 1 };
            let b0 = if b < k { b } else { b + 1 };
            assert(by_card()(plays[a0]) <= by_card()(plays[b0]));
        }
        assert forall|a: int, b: int| 0 <= a < b < after.len() implies (#[trigger] after[a]).player
            != (#[trigger] after[b]).player by {
            let a0 = if a < k { a } else { a + 1 };
            let b0 = if b < k { b } else { b + 1 };
            assert(plays[a0].player != plays[b0].player);
        }
        if has_played(after, id) {
            let a = entry_of(after, id);
            let a0 = if a < k { a } else { a + 1 };
            assert(plays[a0].player == id);
            lemma_entry_of(plays, a0);
        }
    }
}

/// The cards played in a round, from the lowest to the highest.
#[derive(Debug, Clone)]
pub struct CardPlay {
    plays: Vec<(String, u8)>,
}

impl View for CardPlay {
    type V = Seq<PlayView>;

    closed spec fn view(&self) -> Seq<PlayView> {
        Seq::new(
            self.plays@.len(),
            |k: int| PlayView { player: self.plays@[k].0@, card: self.plays@[k].1 },
        )
    }
}

impl CardPlay {
    /// The buffer is valid.
    pub open spec fn wf(&self) -> bool {
        buffer_wf(self@)
    }

    /// A round in which nobody has played yet.
    pub fn new() -> (plays: CardPlay)
        ensures
            plays@ == Seq::<PlayView>::empty(),
            plays.wf(),
    {
        let plays = CardPlay { plays: Vec::new() };
        assert(plays@ =~= Seq::<PlayView>::empty());
        plays
    }

    /// Where the submission of the player stands, if there is one.
    fn find(&self, user_id: &str) -> (place: Option<usize>)
        requires
            self.wf(),
        ensures
            match place {
                Some(k) => k < self@.len() && has_played(self@, user_id@) && k == entry_of(
                    self@,
                    user_id@,
                ),
                None => !has_played(self@, user_id@),
            },
    {
        let mut k: usize = 0;
        while k < self.plays.len()
            invariant
                k <= self.plays@.len(),
                self.wf(),
                forall|a: int| 0 <= a < k ==> (#[trigger] self@[a]).player != user_id@,
            decreases self.plays@.len() - k,
        {
            if same_text(self.plays[k].0.as_str(), user_id) {
                proof {
                    assert(self@[k as int].player == user_id@);
                    lemma_entry_of(self@, k as int);
                }
                return Some(k);
            }
            k = k + 1;
        }
        None
    }

    /// Takes in the card of a player who has not played yet this round.
    pub fn play_card(&mut self, user_id: String, card: u8) -> (done: Result<(), PlacementError>)
        requires
            old(self).wf(),
        ensures
            final(self).wf(),
            match done {
                Ok(_) => !has_played(old(self)@, user_id@) && final(self)@ == submitted(
                    old(self)@,
                    user_id@,
                    card,
                ),
                Err(e) => e == PlacementError::RepeatedPlacement && has_played(
                    old(self)@,
                    user_id@,
                ) && final(self)@ == old(self)@,
            },
    {
        if self.find(user_id.as_str()).is_some() {
            return Err(PlacementError::RepeatedPlacement);
        }
        let ghost play = PlayView { player: user_id@, card };
        let mut j: usize = self.plays.len();
        while j > 0 && self.plays[j - 1].1 > card
            invariant
                j <= self.plays@.len(),
                self@ == old(self)@,
                play.card == card,
                forall|a: int|
                    j <= a < self@.len() ==> by_card()(#[trigger] self@[a]) > by_card()(play),
            decreases j,
        {
            j = j - 1;
        }
        proof {
            if j > 0 {
                assert(by_card()(self@[j - 1]) <= by_card()(play));
            }
            lemma_slot_is(self@, play, by_card(), j as int);
            lemma_submitted(self@, user_id@, card);
        }
        self.plays.insert(j, (user_id, card));
        assert(self@ =~= submitted(old(self)@, user_id@, card));
        Ok(())
    }

    /// The number of cards played.
    pub fn num(&self) -> (n: usize)
        ensures
            n == self@.len(),
    {
        self.plays.len()
    }

    /// The submission at a place: who played, and which card.
    pub fn play_at(&self, place: usize) -> (play: (&String, u8))
        requires
            place < self@.len(),
        ensures
            play.0@ == self@[place as int].player,
            play.1 == self@[place as int].card,
    {
        (&self.plays[place].0, self.plays[place].1)
    }

    /// Takes the card of the player out of the round, if there is one.
    pub fn remove_card(&mut self, user_id: &str) -> (card: Option<u8>)
        requires
            old(self).wf(),
        ensures
            final(self).wf(),
            final(self)@ == withdrawn(old(self)@, user_id@),
            card == played_by(old(self)@, user_id@),
    {
        proof {
            lemma_withdrawn(self@, user_id@);
        }
        match self.find(user_id) {
            None => None,
            Some(k) => {
                let play = self.plays.remove(k);
                assert(self@ =~= old(self)@.remove(k as int));
                Some(play.1)
            },
        }
    }

    /// The card the player has played this round, if any.
    pub fn played_card_for(&self, user_id: &str) -> (card: Option<u8>)
        requires
            self.wf(),
        ensures
            card == played_by(self@, user_id@),
    {
        match self.find(user_id) {
            None => None,
            Some(k) => Some(self.plays[k].1),
        }
    }

    /// A buffer with the same plays.
    pub fn duplicate(&self) -> (copy: CardPlay)
        ensures
            copy@ == self@,
    {
        let mut plays: Vec<(String, u8)> = Vec::new();
        let mut k: usize = 0;
        while k < self.plays.len()
            invariant
                k <= self.plays@.len(),
                plays@.len() == k,
                forall|a: int|
                    0 <= a < k ==> (#[trigger] plays@[a]).0@ == self.plays@[a].0@ && plays@[a].1
                        == self.plays@[a].1,
            decreases self.plays@.len() - k,
        {
            plays.push((self.plays[k].0.clone(), self.plays[k].1));
            k = k + 1;
        }
        let copy = CardPlay { plays };
        assert(copy@ =~= self@);
        copy
    }
}

/// What the table is waiting for.
pub enum TurnView {
    /// Cards are being played.
    CardPlay(Seq<PlayView>),
    /// The named player must give up a pile before the plays are applied.
    PileSelection(Seq<char>, Seq<PlayView>),
}

impl TurnView {
    /// The plays submitted in the round.
    pub open spec fn plays(self) -> Seq<PlayView> {
        match self {
            TurnView::CardPlay(plays) => plays,
            TurnView::PileSelection(_, plays) => plays,
        }
    }
}

/// What the table is waiting for.
#[derive(Debug)]
pub enum Turn {
    /// Cards are being played.
    CardPlay(CardPlay),
    /// A player must select a pile.
    PileSelection(String, CardPlay),
}

impl View for Turn {
    type V = TurnView;

    open spec fn view(&self) -> TurnView {
        match self {
            Turn::CardPlay(plays) => TurnView::CardPlay(plays@),
            Turn::PileSelection(id, plays) => TurnView::PileSelection(id@, plays@),
        }
    }
}

impl Turn {
    /// The card the player has played this round, if any.
    pub fn played_card_for(&self, user_id: &str) -> (card: Option<u8>)
        requires
            buffer_wf(self@.plays()),
        ensures
            card == played_by(self@.plays(), user_id@),
    {
        match self {
            Turn::CardPlay(plays) => plays.played_card_for(user_id),
            Turn::PileSelection(_, plays) => plays.played_card_for(user_id),
        }
    }
}

} // verus!
