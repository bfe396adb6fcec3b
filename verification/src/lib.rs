//! A minimal confidential card-game engine.
//!
//! The engine accumulates per-player hands of cards and determines a winner
//! by comparing hand scores, where a hand's score is the sum of its cards'
//! values. In a real deployment the hands would stay encrypted and an
//! external secure-computation cluster would run exactly this logic; this
//! crate is the plaintext reference for that computation, so it performs no
//! I/O, no randomness, and no encryption of its own.

use vstd::prelude::*;

verus! {

/// A playing card. `suit` conventionally ranges over 0..=3 (hearts,
/// diamonds, clubs, spades) and `value` over 2..=14 (14 is the ace), but no
/// operation validates the ranges: scoring reads only `value`, and an
/// out-of-range card is accepted silently.
#[derive(Debug, Clone, PartialEq, Eq, Structural)]
pub struct Card {
    pub suit: u8,
    pub value: u8,
}

/// One player's hand: an identifier and the cards in the order they were
/// dealt. A hand is built once and never mutated afterwards.
#[derive(Debug, Clone)]
pub struct PlayerHand {
    pub player_id: u64,
    pub cards: Vec<Card>,
}

/// The game state: hands in arrival order, plus a lifecycle flag that is
/// reserved for future use and is read by no operation here.
pub struct ShieldedGame {
    pub hands: Vec<PlayerHand>,
    pub is_finished: bool,
}

/// The score of a hand: the sum of its cards' values.
pub open spec fn score_of(cards: Seq<Card>) -> int
    decreases cards.len(),
{
    if cards.len() == 0 {
        0
    } else {
        score_of(cards.drop_last()) + cards.last().value
    }
}

/// The leader after the hands have been walked in arrival order, paired with
/// the best score seen so far. The leader starts out absent with a threshold
/// of zero and is replaced exactly when a hand's score is strictly greater
/// than the threshold, so ties keep the earlier-dealt leader and a collection
/// of only zero-score hands leaves no leader at all.
pub open spec fn tally(hands: Seq<PlayerHand>) -> (Option<u64>, int)
    decreases hands.len(),
{
    if hands.len() == 0 {
        (None, 0)
    } else {
        let (leader, best) = tally(hands.drop_last());
        let last_score = score_of(hands.last().cards@);
        if last_score > best {
            (Some(hands.last().player_id), last_score)
        } else {
            (leader, best)
        }
    }
}

/// The winning player, if any, of the given hands.
pub open spec fn winner_of(hands: Seq<PlayerHand>) -> Option<u64> {
    tally(hands).0
}

/// The best score among the given hands, or zero if there are none.
pub open spec fn best_score(hands: Seq<PlayerHand>) -> int {
    tally(hands).1
}

/// Removing one card lowers a hand's score by exactly that card's value.
proof fn lemma_score_remove(cards: Seq<Card>, i: int)
    requires
        0 <= i < cards.len(),
    ensures
        score_of(cards.remove(i)) == score_of(cards) - cards[i].value,
    decreases cards.len(),
{
    if i == cards.len() - 1 {
        assert(cards.remove(i) =~= cards.drop_last());
    } else {
        assert(cards.remove(i).drop_last() =~= cards.drop_last().remove(i));
        assert(cards.remove(i).last() == cards.last());
        lemma_score_remove(cards.drop_last(), i);
    }
}

/// Law: a hand's score does not depend on the order of its cards — any two
/// card sequences that hold the same multiset of cards score the same.
pub proof fn lemma_score_order_irrelevant(cards1: Seq<Card>, cards2: Seq<Card>)
    requires
        cards1.to_multiset() == cards2.to_multiset(),
    ensures
        score_of(cards1) == score_of(cards2),
    decreases cards1.len(),
{
    cards1.to_multiset_ensures();
    cards2.to_multiset_ensures();
    if cards1.len() == 0 {
        assert(cards2.to_multiset().len() == 0);
    } else {
        let a = cards1.last();
        assert(cards1.contains(a));
        assert(cards2.to_multiset().count(a) > 0);
        let i = cards2.index_of(a);
        assert(0 <= i < cards2.len() && cards2[i] == a);
        lemma_score_remove(cards2, i);
        assert(cards1.drop_last() =~= cards1.remove(cards1.len() - 1));
        assert(cards1.drop_last().to_multiset() == cards2.remove(i).to_multiset());
        lemma_score_order_irrelevant(cards1.drop_last(), cards2.remove(i));
    }
}

/// Every hand's score is bounded by the best score, the best score is zero
/// exactly when there is no leader, and a leader's hand is in the collection
/// and holds the best score.
proof fn lemma_tally_props(hands: Seq<PlayerHand>)
    ensures
        best_score(hands) >= 0,
        forall|i: int| 0 <= i < hands.len() ==> score_of((#[trigger] hands[i]).cards@) <= best_score(hands),
        winner_of(hands) is Some <==> best_score(hands) > 0,
        winner_of(hands) matches Some(id) ==> exists|i: int|
            0 <= i < hands.len() && (#[trigger] hands[i]).player_id == id
                && score_of(hands[i].cards@) == best_score(hands),
    decreases hands.len(),
{
    if hands.len() > 0 {
        let prefix = hands.drop_last();
        let n = hands.len() as int;
        lemma_tally_props(prefix);
        assert forall|i: int| 0 <= i < n implies
            score_of((#[trigger] hands[i]).cards@) <= best_score(hands) by {
            if i < n - 1 {
                assert(hands[i] == prefix[i]);
            }
        }
        if score_of(hands.last().cards@) > best_score(prefix) {
            assert(hands[n - 1].player_id == hands.last().player_id);
        } else {
            match winner_of(prefix) {
                Some(id) => {
                    let j = choose|j: int|
                        0 <= j < prefix.len() && (#[trigger] prefix[j]).player_id == id
                            && score_of(prefix[j].cards@) == best_score(prefix);
                    assert(hands[j] == prefix[j]);
                },
                None => {},
            }
        }
    }
}

/// If every hand scores strictly below `s` and `s` is positive, the best
/// score stays strictly below `s` as well.
proof fn lemma_best_below(hands: Seq<PlayerHand>, s: int)
    requires
        s > 0,
        forall|j: int| 0 <= j < hands.len() ==> score_of((#[trigger] hands[j]).cards@) < s,
    ensures
        best_score(hands) < s,
    decreases hands.len(),
{
    if hands.len() > 0 {
        let prefix = hands.drop_last();
        assert forall|j: int| 0 <= j < prefix.len() implies
            score_of((#[trigger] prefix[j]).cards@) < s by {
            assert(prefix[j] == hands[j]);
        }
        lemma_best_below(prefix, s);
        assert(score_of(hands[hands.len() - 1].cards@) < s);
    }
}

/// Law: a declared winner is a player whose hand is in the collection, and
/// an empty collection never has a winner.
pub proof fn lemma_winner_is_a_player(hands: Seq<PlayerHand>)
    ensures
        winner_of(hands) matches Some(id) ==> exists|i: int|
            0 <= i < hands.len() && (#[trigger] hands[i]).player_id == id,
        hands.len() == 0 ==> winner_of(hands) is None,
{
    lemma_tally_props(hands);
}

/// Law: among hands of which at least one scores above zero, the winner is
/// absent exactly when the collection is empty. The proviso is needed
/// because a non-empty collection of only zero-score hands also has no
/// winner: no score strictly exceeds the initial zero threshold.
pub proof fn lemma_no_winner_iff_no_hands(hands: Seq<PlayerHand>)
    requires
        hands.len() > 0 ==> exists|i: int|
            0 <= i < hands.len() && score_of((#[trigger] hands[i]).cards@) > 0,
    ensures
        winner_of(hands) is None <==> hands.len() == 0,
{
    lemma_tally_props(hands);
    if hands.len() > 0 {
        let i = choose|i: int|
            0 <= i < hands.len() && score_of((#[trigger] hands[i]).cards@) > 0;
        assert(score_of(hands[i].cards@) <= best_score(hands));
    }
}

/// Law (tie-break): the winner is the earliest hand whose score is maximal.
/// In particular, of two hands with equal maximal score the earlier-dealt
/// one wins: the leader is replaced only on a strictly greater score.
pub proof fn lemma_earliest_best_hand_wins(hands: Seq<PlayerHand>, i: int)
    requires
        0 <= i < hands.len(),
        score_of(hands[i].cards@) > 0,
        forall|j: int| 0 <= j < hands.len() ==> score_of((#[trigger] hands[j]).cards@) <= score_of(hands[i].cards@),
        forall|j: int| 0 <= j < i ==> score_of((#[trigger] hands[j]).cards@) < score_of(hands[i].cards@),
    ensures
        winner_of(hands) == Some(hands[i].player_id),
        best_score(hands) == score_of(hands[i].cards@),
    decreases hands.len(),
{
    let prefix = hands.drop_last();
    let n = hands.len() as int;
    if i == n - 1 {
        assert forall|j: int| 0 <= j < prefix.len() implies
            score_of((#[trigger] prefix[j]).cards@) < score_of(hands[i].cards@) by {
            assert(prefix[j] == hands[j]);
        }
        lemma_best_below(prefix, score_of(hands[i].cards@));
    } else {
        assert forall|j: int| 0 <= j < prefix.len() implies
            score_of((#[trigger] prefix[j]).cards@) <= score_of(prefix[i].cards@) by {
            assert(prefix[j] == hands[j] && prefix[i] == hands[i]);
        }
        assert forall|j: int| 0 <= j < i implies
            score_of((#[trigger] prefix[j]).cards@) < score_of(prefix[i].cards@) by {
            assert(prefix[j] == hands[j] && prefix[i] == hands[i]);
        }
        lemma_earliest_best_hand_wins(prefix, i);
        assert(score_of(hands[n - 1].cards@) <= score_of(hands[i].cards@));
    }
}

/// Law (monotonicity, upward): dealing a hand that scores strictly above
/// every hand already present makes its player the winner. The positive
/// score is needed when no hands are present yet: a lone zero-score hand
/// never beats the initial zero threshold.
pub proof fn lemma_new_top_score_wins(hands: Seq<PlayerHand>, hand: PlayerHand)
    requires
        score_of(hand.cards@) > 0,
        forall|j: int| 0 <= j < hands.len() ==> score_of((#[trigger] hands[j]).cards@) < score_of(hand.cards@),
    ensures
        winner_of(hands.push(hand)) == Some(hand.player_id),
        best_score(hands.push(hand)) == score_of(hand.cards@),
{
    lemma_best_below(hands, score_of(hand.cards@));
    assert(hands.push(hand).drop_last() =~= hands);
    assert(hands.push(hand).last() == hand);
}

/// Law (monotonicity, downward): dealing a hand that does not beat the best
/// score already present leaves the winner unchanged.
pub proof fn lemma_no_better_score_keeps_winner(hands: Seq<PlayerHand>, hand: PlayerHand)
    requires
        score_of(hand.cards@) <= best_score(hands),
    ensures
        winner_of(hands.push(hand)) == winner_of(hands),
        best_score(hands.push(hand)) == best_score(hands),
{
    assert(hands.push(hand).drop_last() =~= hands);
    assert(hands.push(hand).last() == hand);
}

impl PlayerHand {
    /// The hand's score. The sum is carried in a `u128`, which cannot
    /// overflow: a hand of `n` cards scores at most `255 * n`, and `n` is
    /// bounded by `usize::MAX`.
    pub fn score(&self) -> (s: u128)
        ensures
            s as int == score_of(self.cards@),
    {
        let mut s: u128 = 0;
        let mut i: usize = 0;
        while i < self.cards.len()
            invariant
                i <= self.cards@.len(),
                s as int == score_of(self.cards@.take(i as int)),
                s <= 255 * (i as int),
            decreases self.cards@.len() - i,
        {
            proof {
                assert(self.cards@.take(i as int + 1).drop_last() =~= self.cards@.take(i as int));
                assert(self.cards@.take(i as int + 1).last() == self.cards@[i as int]);
            }
            s = s + self.cards[i].value as u128;
            i = i + 1;
        }
        proof {
            assert(self.cards@.take(self.cards@.len() as int) =~= self.cards@);
        }
        s
    }
}

impl ShieldedGame {
    /// An empty game: no hands, not finished.
    pub fn new() -> (game: ShieldedGame)
        ensures
            game.hands@ == Seq::<PlayerHand>::empty(),
            !game.is_finished,
    {
        ShieldedGame { hands: Vec::new(), is_finished: false }
    }

    /// Appends a new hand built from the given id and cards. Always
    /// succeeds: neither card ranges nor uniqueness of `player_id` is
    /// checked here.
    pub fn deal_hand(&mut self, player_id: u64, cards: Vec<Card>)
        ensures
            final(self).hands@ == old(self).hands@.push((PlayerHand { player_id, cards })),
            final(self).is_finished == old(self).is_finished,
    {
        self.hands.push(PlayerHand { player_id, cards });
    }

    /// The winner: one linear pass over the hands in arrival order, keeping
    /// the first hand whose score strictly exceeds every score before it and
    /// the zero threshold. No hands, or only zero-score hands, yield no
    /// winner.
    pub fn determine_winner(&self) -> (winner: Option<u64>)
        ensures
            winner == winner_of(self.hands@),
    {
        let mut winner_id: Option<u64> = None;
        let mut max_score: u128 = 0;
        let mut i: usize = 0;
        while i < self.hands.len()
            invariant
                i <= self.hands@.len(),
                winner_id == winner_of(self.hands@.take(i as int)),
                max_score as int == best_score(self.hands@.take(i as int)),
            decreases self.hands@.len() - i,
        {
            let hand_score = self.hands[i].score();
            proof {
                assert(self.hands@.take(i as int + 1).drop_last() =~= self.hands@.take(i as int));
                assert(self.hands@.take(i as int + 1).last() == self.hands@[i as int]);
            }
            if hand_score > max_score {
                max_score = hand_score;
                winner_id = Some(self.hands[i].player_id);
            }
            i = i + 1;
        }
        proof {
            assert(self.hands@.take(self.hands@.len() as int) =~= self.hands@);
        }
        winner_id
    }
}

} // verus!
