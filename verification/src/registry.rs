//! The registry of players: who sits at the table, found by identity.

use vstd::prelude::*;

use crate::cards::{distinct_cards, lemma_without_card, HAND_SIZE};
use crate::deck::{dealt, lemma_dealt, undealt, Deck};
use crate::player::{
    derive_identity, hand_from, identity_of, lemma_hand_from, newcomer, same_text, Player,
    PlayerView, MAX_GAIN, MAX_PLAYERS,
};

verus! {

/// Some player has the identity.
pub open spec fn registered(players: Seq<PlayerView>, id: Seq<char>) -> bool {
    exists|i: int| 0 <= i < players.len() && (#[trigger] players[i]).id == id
}

/// Where the player with the identity sits.
pub open spec fn place_of(players: Seq<PlayerView>, id: Seq<char>) -> int {
    choose|i: int| 0 <= i < players.len() && (#[trigger] players[i]).id == id
}

/// The player with the identity.
pub open spec fn player_of(players: Seq<PlayerView>, id: Seq<char>) -> PlayerView {
    players[place_of(players, id)]
}

/// No identity is taken twice.
pub open spec fn distinct_ids(players: Seq<PlayerView>) -> bool {
    forall|i: int, j: int|
        0 <= i < j < players.len() ==> (#[trigger] players[i]).id != (#[trigger] players[j]).id
}

/// No more players than the table seats, each of them valid, no identity
/// taken twice, and no card in two hands.
pub open spec fn registry_wf(players: Seq<PlayerView>) -> bool {
    &&& players.len() <= MAX_PLAYERS
    &&& forall|i: int| 0 <= i < players.len() ==> (#[trigger] players[i]).wf()
    &&& distinct_ids(players)
    &&& forall|i: int, j: int, c: u8|
        0 <= i < players.len() && 0 <= j < players.len() && i != j
            && #[trigger] players[i].hand.contains(c) ==> !#[trigger] players[j].hand.contains(c)
}

/// Every player holds a full hand and no points.
pub open spec fn all_fresh(players: Seq<PlayerView>) -> bool {
    forall|i: int| 0 <= i < players.len() ==> (#[trigger] players[i]).fresh()
}

/// No card of the deck is in a player's hand.
pub open spec fn deck_apart(deck: Seq<u8>, players: Seq<PlayerView>) -> bool {
    forall|i: int, c: u8|
        0 <= i < players.len() && #[trigger] players[i].hand.contains(c) ==> !deck.contains(c)
}

/// The players after the one with the identity played `card` and took `gain` points.
pub open spec fn credited(players: Seq<PlayerView>, id: Seq<char>, card: u8, gain: nat) -> Seq<
    PlayerView,
> {
    Seq::new(
        players.len(),
        |i: int|
            if players[i].id == id {
                players[i].settled(card, gain)
            } else {
                players[i]
            },
    )
}

/// The players with new hands from the deck and no points: each player in
/// turn takes the top cards that the players before left.
pub open spec fn redealt(players: Seq<PlayerView>, deck: Seq<u8>) -> Seq<PlayerView> {
    Seq::new(
        players.len(),
        |i: int| newcomer(players[i].id, players[i].name, undealt(deck, (HAND_SIZE * i) as nat)),
    )
}

/// Where no identity is taken twice, an identity belongs to one seat.
pub proof fn lemma_place_of(players: Seq<PlayerView>, i: int)
    requires
        distinct_ids(players),
        0 <= i < players.len(),
    ensures
        registered(players, players[i].id),
        place_of(players, players[i].id) == i,
        player_of(players, players[i].id) == players[i],
{
    let id = players[i].id;
    let p = place_of(players, id);
    if p < i {
        assert(players[p].id != players[i].id);
    } else if i < p {
        assert(players[i].id != players[p].id);
    }
}

/// Settling a play keeps a valid registry valid, and the seats and identities
/// as they were.
pub proof fn lemma_credited_wf(players: Seq<PlayerView>, id: Seq<char>, card: u8, gain: nat)
    requires
        registry_wf(players),
        registered(players, id),
        player_of(players, id).hand.contains(card),
        gain <= MAX_GAIN,
    ensures
        registry_wf(credited(players, id, card, gain)),
        credited(players, id, card, gain).len() == players.len(),
        forall|i: int|
            0 <= i < players.len() ==> (#[trigger] credited(players, id, card, gain)[i]).id
                == players[i].id,
        forall|i: int, c: u8|
            0 <= i < players.len() && #[trigger] credited(players, id, card, gain)[i].hand.contains(
                c,
            ) ==> players[i].hand.contains(c),
        forall|i: int|
            0 <= i < players.len() ==> !(#[trigger] credited(
                players,
                id,
                card,
                gain,
            )[i]).hand.contains(card),
{
    let after = credited(players, id, card, gain);
    let p = place_of(players, id);
    lemma_place_of(players, p);
    assert forall|i: int| 0 <= i < players.len() implies (#[trigger] after[i]).wf() && after[i].id
        == players[i].id && !after[i].hand.contains(card) && (forall|c: u8|
        after[i].hand.contains(c) ==> players[i].hand.contains(c)) by {
        assert(players[i].wf());
        lemma_without_card(players[i].hand, card);
        if players[i].id == id {
            lemma_place_of(players, i);
        } else {
            assert(after[i] == players[i]);
            if players[i].hand.contains(card) {
                assert(players[p].hand.contains(card));
                assert(!players[i].hand.contains(card));
            }
        }
    }
    assert forall|i: int, j: int| 0 <= i < j < after.len() implies (#[trigger] after[i]).id != (
    #[trigger] after[j]).id by {
        assert(players[i].id != players[j].id);
    }
    assert forall|i: int, j: int, c: u8|
        0 <= i < after.len() && 0 <= j < after.len() && i != j
            && #[trigger] after[i].hand.contains(c) implies !#[trigger] after[j].hand.contains(
        c,
    ) by {
        assert(players[i].hand.contains(c));
        if after[j].hand.contains(c) {
            assert(players[j].hand.contains(c));
        }
    }
}

/// Settling the play of one player leaves the others as they were, and
/// nobody joins or leaves.
pub proof fn lemma_credited_others(
    players: Seq<PlayerView>,
    id: Seq<char>,
    card: u8,
    gain: nat,
    other: Seq<char>,
)
    requires
        distinct_ids(players),
    ensures
        distinct_ids(credited(players, id, card, gain)),
        registered(credited(players, id, card, gain), other) == registered(players, other),
        registered(players, other) ==> place_of(credited(players, id, card, gain), other)
            == place_of(players, other),
        registered(players, other) && other != id ==> player_of(
            credited(players, id, card, gain),
            other,
        ) == player_of(players, other),
        registered(players, other) && other == id ==> player_of(
            credited(players, id, card, gain),
            other,
        ) == player_of(players, other).settled(card, gain),
{
    let after = credited(players, id, card, gain);
    assert forall|i: int, j: int| 0 <= i < j < after.len() implies (#[trigger] after[i]).id != (
    #[trigger] after[j]).id by {
        assert(players[i].id != players[j].id);
    }
    if registered(players, other) {
        let i = place_of(players, other);
        assert(after[i].id == other);
        lemma_place_of(after, i);
    }
    if registered(after, other) {
        let i = place_of(after, other);
        assert(players[i].id == other);
    }
}

/// The hand that the player at seat `i` is redealt holds cards from one
/// stretch of the deck, ten cards long, that no other seat shares.
proof fn lemma_redealt_hand(deck: Seq<u8>, i: int, c: u8)
    requires
        distinct_cards(deck),
        0 <= i,
        HAND_SIZE * (i + 1) <= deck.len(),
        hand_from(undealt(deck, (HAND_SIZE * i) as nat)).contains(c),
    ensures
        exists|p: int|
            deck.len() - HAND_SIZE * (i + 1) <= p < deck.len() - HAND_SIZE * i && #[trigger] deck[p]
                == c,
{
    let left = undealt(deck, (HAND_SIZE * i) as nat);
    lemma_dealt(deck, (HAND_SIZE * i) as nat);
    lemma_hand_from(left);
    let top = dealt(left, HAND_SIZE as nat);
    assert(top.contains(c));
    let k = choose|k: int| 0 <= k < top.len() && top[k] == c;
    let p = left.len() - 1 - k;
    assert(top[k] == left[p]);
    assert(left[p] == deck[p]);
}

/// Redealing from distinct cards gives a valid registry of fresh players who
/// share no card with what is left of the deck.
pub proof fn lemma_redealt_wf(players: Seq<PlayerView>, deck: Seq<u8>)
    requires
        registry_wf(players),
        distinct_cards(deck),
        HAND_SIZE * players.len() <= deck.len(),
    ensures
        registry_wf(redealt(players, deck)),
        all_fresh(redealt(players, deck)),
        deck_apart(undealt(deck, (HAND_SIZE * players.len()) as nat), redealt(players, deck)),
        distinct_cards(undealt(deck, (HAND_SIZE * players.len()) as nat)),
{
    let after = redealt(players, deck);
    let n = players.len();
    lemma_dealt(deck, (HAND_SIZE * n) as nat);
    assert forall|i: int| 0 <= i < n implies (#[trigger] after[i]).wf() && after[i].fresh() by {
        lemma_dealt(deck, (HAND_SIZE * i) as nat);
        lemma_hand_from(undealt(deck, (HAND_SIZE * i) as nat));
    }
    assert forall|i: int, j: int| 0 <= i < j < after.len() implies (#[trigger] after[i]).id != (
    #[trigger] after[j]).id by {
        assert(players[i].id != players[j].id);
    }
    assert forall|i: int, j: int, c: u8|
        0 <= i < after.len() && 0 <= j < after.len() && i != j
            && #[trigger] after[i].hand.contains(c) implies !#[trigger] after[j].hand.contains(
        c,
    ) by {
        if after[j].hand.contains(c) {
            lemma_redealt_hand(deck, i, c);
            lemma_redealt_hand(deck, j, c);
            let p = choose|p: int|
                deck.len() - HAND_SIZE * (i + 1) <= p < deck.len() - HAND_SIZE * i
                    && #[trigger] deck[p] == c;
            let q = choose|q: int|
                deck.len() - HAND_SIZE * (j + 1) <= q < deck.len() - HAND_SIZE * j
                    && #[trigger] deck[q] == c;
            assert(p != q);
        }
    }
    let left = undealt(deck, (HAND_SIZE * n) as nat);
    assert forall|i: int, c: u8|
        0 <= i < after.len() && #[trigger] after[i].hand.contains(c) implies !left.contains(c) by {
        lemma_redealt_hand(deck, i, c);
        let p = choose|p: int|
            deck.len() - HAND_SIZE * (i + 1) <= p < deck.len() - HAND_SIZE * i && #[trigger] deck[p]
                == c;
        if left.contains(c) {
            let q = choose|q: int| 0 <= q < left.len() && left[q] == c;
            assert(deck[q] == c);
            assert(p != q);
        }
    }
}

/// Seating a newcomer dealt from distinct cards that no player holds keeps
/// the registry valid and apart from what is left of the deck.
pub proof fn lemma_join_wf(players: Seq<PlayerView>, id: Seq<char>, name: Seq<char>, deck: Seq<u8>)
    requires
        registry_wf(players),
        players.len() < MAX_PLAYERS,
        !registered(players, id),
        distinct_cards(deck),
        deck.len() >= HAND_SIZE,
        deck_apart(deck, players),
    ensures
        registry_wf(players.push(newcomer(id, name, deck))),
        deck_apart(undealt(deck, HAND_SIZE as nat), players.push(newcomer(id, name, deck))),
        distinct_cards(undealt(deck, HAND_SIZE as nat)),
        all_fresh(players) ==> all_fresh(players.push(newcomer(id, name, deck))),
{
    let fresh = newcomer(id, name, deck);
    let after = players.push(fresh);
    let left = undealt(deck, HAND_SIZE as nat);
    lemma_hand_from(deck);
    lemma_dealt(deck, HAND_SIZE as nat);
    assert forall|i: int| 0 <= i < after.len() implies (#[trigger] after[i]).wf() by {
        if i < players.len() {
            assert(after[i] == players[i]);
        }
    }
    assert forall|i: int, j: int| 0 <= i < j < after.len() implies (#[trigger] after[i]).id != (
    #[trigger] after[j]).id by {
        if j < players.len() {
            assert(players[i].id != players[j].id);
        } else {
            assert(after[i] == players[i]);
        }
    }
    assert forall|i: int, j: int, c: u8|
        0 <= i < after.len() && 0 <= j < after.len() && i != j
            && #[trigger] after[i].hand.contains(c) implies !#[trigger] after[j].hand.contains(
        c,
    ) by {
        if i < players.len() && j < players.len() {
            assert(players[i].hand.contains(c));
            assert(!players[j].hand.contains(c));
        } else if i < players.len() {
            assert(players[i].hand.contains(c));
            assert(!deck.contains(c));
        } else {
            assert(deck.contains(c));
            if after[j].hand.contains(c) {
                assert(players[j].hand.contains(c));
            }
        }
    }
    assert forall|i: int, c: u8|
        0 <= i < after.len() && #[trigger] after[i].hand.contains(c) implies !left.contains(c) by {
        if i < players.len() {
            assert(players[i].hand.contains(c));
        }
    }
    if all_fresh(players) {
        assert forall|i: int| 0 <= i < after.len() implies (#[trigger] after[i]).fresh() by {
            if i < players.len() {
                assert(after[i] == players[i]);
            }
        }
    }
}

/// A mapping from identities to players.
#[derive(Debug, Clone)]
pub struct PlayerMapping {
    players: Vec<Player>,
}

impl View for PlayerMapping {
    type V = Seq<PlayerView>;

    closed spec fn view(&self) -> Seq<PlayerView> {
        Seq::new(self.players@.len(), |i: int| self.players@[i]@)
    }
}

impl PlayerMapping {
    /// The registry is valid.
    pub open spec fn wf(&self) -> bool {
        registry_wf(self@)
    }

    /// A registry without players.
    pub fn new() -> (players: PlayerMapping)
        ensures
            players@ == Seq::<PlayerView>::empty(),
            players.wf(),
    {
        let players = PlayerMapping { players: Vec::new() };
        assert(players@ =~= Seq::<PlayerView>::empty());
        players
    }

    /// The number of players.
    pub fn num(&self) -> (n: usize)
        ensures
            n == self@.len(),
    {
        self.players.len()
    }

    /// The seat of the player with the identity, if there is one.
    pub fn seat_of(&self, user_id: &str) -> (seat: Option<usize>)
        ensures
            match seat {
                Some(i) => i < self@.len() && self@[i as int].id == user_id@ && registered(
                    self@,
                    user_id@,
                ) && (self.wf() ==> i == place_of(self@, user_id@)),
                None => !registered(self@, user_id@),
            },
    {
        let mut i: usize = 0;
        while i < self.players.len()
            invariant
                i <= self.players@.len(),
                forall|k: int| 0 <= k < i ==> (#[trigger] self@[k]).id != user_id@,
            decreases self.players@.len() - i,
        {
            if same_text(self.players[i].id().as_str(), user_id) {
                proof {
                    assert(self@[i as int].id == user_id@);
                    if self.wf() {
                        lemma_place_of(self@, i as int);
                    }
                }
                return Some(i);
            }
            i = i + 1;
        }
        None
    }

    /// The player at a seat.
    pub fn player_at(&self, seat: usize) -> (player: &Player)
        requires
            seat < self@.len(),
        ensures
            player@ == self@[seat as int],
    {
        &self.players[seat]
    }

    /// The player with the identity, if there is one.
    pub fn get(&self, user_id: &str) -> (player: Option<&Player>)
        requires
            self.wf(),
        ensures
            match player {
                Some(p) => registered(self@, user_id@) && p@ == player_of(self@, user_id@),
                None => !registered(self@, user_id@),
            },
    {
        match self.seat_of(user_id) {
            Some(i) => Some(&self.players[i]),
            None => None,
        }
    }

    /// The display names, in the order in which the players joined.
    pub fn players(&self) -> (names: Vec<String>)
        ensures
            names@.len() == self@.len(),
            forall|i: int| 0 <= i < self@.len() ==> (#[trigger] names@[i])@ == self@[i].name,
    {
        let mut names: Vec<String> = Vec::new();
        let mut i: usize = 0;
        while i < self.players.len()
            invariant
                i <= self.players@.len(),
                names@.len() == i,
                forall|k: int| 0 <= k < i ==> (#[trigger] names@[k])@ == self@[k].name,
            decreases self.players@.len() - i,
        {
            names.push(self.players[i].name().clone());
            i = i + 1;
        }
        names
    }

    /// The display name and the points of each player, in the order in which
    /// the players joined.
    pub fn player_scores(&self) -> (scores: Vec<(String, u16)>)
        ensures
            scores@.len() == self@.len(),
            forall|i: int|
                0 <= i < self@.len() ==> (#[trigger] scores@[i]).0@ == self@[i].name
                    && scores@[i].1 == self@[i].points,
    {
        let mut scores: Vec<(String, u16)> = Vec::new();
        let mut i: usize = 0;
        while i < self.players.len()
            invariant
                i <= self.players@.len(),
                scores@.len() == i,
                forall|k: int|
                    0 <= k < i ==> (#[trigger] scores@[k]).0@ == self@[k].name && scores@[k].1
                        == self@[k].points,
            decreases self.players@.len() - i,
        {
            scores.push((self.players[i].name().clone(), self.players[i].points()));
            i = i + 1;
        }
        scores
    }

    /// A registry with the same players.
    pub fn duplicate(&self) -> (copy: PlayerMapping)
        ensures
            copy@ == self@,
    {
        let mut players: Vec<Player> = Vec::new();
        let mut i: usize = 0;
        while i < self.players.len()
            invariant
                i <= self.players@.len(),
                players@.len() == i,
                forall|k: int| 0 <= k < i ==> (#[trigger] players@[k])@ == self@[k],
            decreases self.players@.len() - i,
        {
            players.push(self.players[i].duplicate());
            i = i + 1;
        }
        let copy = PlayerMapping { players };
        assert(copy@ =~= self@);
        copy
    }

    /// Seats a player under the identity derived from the name and deals the
    /// hand from the deck. Two names with one identity cannot both be seated:
    /// the second is turned away, and nothing changes.
    pub fn join(&mut self, name: String, deck: &mut Deck) -> (id: Option<String>)
        requires
            old(self).wf(),
            old(self)@.len() < MAX_PLAYERS,
            old(deck).wf(),
            old(deck)@.len() >= HAND_SIZE,
            deck_apart(old(deck)@, old(self)@),
        ensures
            final(self).wf(),
            final(deck).wf(),
            deck_apart(final(deck)@, final(self)@),
            all_fresh(old(self)@) ==> all_fresh(final(self)@),
            match id {
                Some(id) => {
                    &&& id@ == identity_of(name@)
                    &&& !registered(old(self)@, id@)
                    &&& final(self)@ == old(self)@.push(newcomer(id@, name@, old(deck)@))
                    &&& final(deck)@ == undealt(old(deck)@, HAND_SIZE as nat)
                },
                None => {
                    &&& registered(old(self)@, identity_of(name@))
                    &&& final(self)@ == old(self)@
                    &&& final(deck)@ == old(deck)@
                },
            },
    {
        let id = derive_identity(&name);
        if self.seat_of(id.as_str()).is_some() {
            return None;
        }
        proof {
            lemma_join_wf(self@, id@, name@, deck@);
        }
        let player = Player::new(id.clone(), name, deck);
        self.players.push(player);
        assert(self@ =~= old(self)@.push(newcomer(id@, name@, old(deck)@)));
        Some(id)
    }

    /// Deals every player a new hand from the deck and takes their points
    /// away. Identities and names stay.
    pub fn reset(&mut self, deck: &mut Deck)
        requires
            old(self).wf(),
            old(deck).wf(),
            HAND_SIZE * old(self)@.len() <= old(deck)@.len(),
        ensures
            final(self)@ == redealt(old(self)@, old(deck)@),
            final(deck)@ == undealt(old(deck)@, (HAND_SIZE * old(self)@.len()) as nat),
            final(self).wf(),
            final(deck).wf(),
            all_fresh(final(self)@),
            deck_apart(final(deck)@, final(self)@),
    {
        let mut i: usize = 0;
        while i < self.players.len()
            invariant
                i <= self.players@.len(),
                self@.len() == old(self)@.len(),
                HAND_SIZE * old(self)@.len() <= old(deck)@.len(),
                old(self)@.len() <= MAX_PLAYERS,
                deck@ == undealt(old(deck)@, (HAND_SIZE * i) as nat),
                forall|k: int|
                    0 <= k < i ==> (#[trigger] self@[k]) == redealt(old(self)@, old(deck)@)[k],
                forall|k: int| i <= k < self@.len() ==> (#[trigger] self@[k]) == old(self)@[k],
            decreases self.players@.len() - i,
        {
            let ghost before = self@;
            self.players[i].redeal(deck);
            proof {
                assert(deck@ =~= undealt(old(deck)@, (HAND_SIZE * (i + 1)) as nat));
                assert forall|k: int| 0 <= k < self@.len() && k != i implies (#[trigger] self@[k])
                    == before[k] by {}
                assert(before[i as int] == old(self)@[i as int]);
                assert(self@[i as int] == newcomer(
                    before[i as int].id,
                    before[i as int].name,
                    undealt(old(deck)@, (HAND_SIZE * i) as nat),
                ));
                assert(self@[i as int] == redealt(old(self)@, old(deck)@)[i as int]);
            }
            i = i + 1;
        }
        proof {
            assert(self@ =~= redealt(old(self)@, old(deck)@));
            lemma_redealt_wf(old(self)@, old(deck)@);
        }
    }

    /// Settles one play: the player with the identity loses the card and gains
    /// the points.
    pub fn settle(&mut self, user_id: &str, card: u8, gain: u16)
        requires
            old(self).wf(),
            registered(old(self)@, user_id@),
            player_of(old(self)@, user_id@).hand.contains(card),
            gain <= MAX_GAIN,
        ensures
            final(self)@ == credited(old(self)@, user_id@, card, gain as nat),
            final(self).wf(),
    {
        let seat = self.seat_of(user_id);
        let i = seat.unwrap();
        proof {
            lemma_credited_wf(self@, user_id@, card, gain as nat);
            assert(self@[i as int].wf());
        }
        self.players[i].settle(card, gain);
        proof {
            assert forall|k: int| 0 <= k < self@.len() implies (#[trigger] self@[k]) == credited(
                old(self)@,
                user_id@,
                card,
                gain as nat,
            )[k] by {
                if k != i {
                    assert(self@[k] == old(self)@[k]);
                    if old(self)@[k].id == user_id@ {
                        lemma_place_of(old(self)@, k);
                    }
                }
            }
            assert(self@ =~= credited(old(self)@, user_id@, card, gain as nat));
        }
    }
}

} // verus!
