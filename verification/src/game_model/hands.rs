use crate::data::enums::{InsectType, Player};
use crate::game_model::piece::Piece;
use vstd::prelude::*;

verus! {

/// The piece is in the hand of `player` and of the given kind.
pub open spec fn is_in_hand(piece: Piece, player: Player, kind: InsectType) -> bool {
    piece.position is None && piece.player == player && piece.insect_type == kind
}

/// The number of pieces of the given kind that `player` has in hand.
pub open spec fn count_in_hand(pieces: Seq<Piece>, player: Player, kind: InsectType) -> nat
    decreases pieces.len(),
{
    if pieces.len() == 0 {
        0
    } else {
        count_in_hand(pieces.drop_last(), player, kind) + if is_in_hand(
            pieces.last(),
            player,
            kind,
        ) {
            1nat
        } else {
            0nat
        }
    }
}

/// The number of entries of the given kind in an inventory.
pub open spec fn count_kind(hand: Seq<InsectType>, kind: InsectType) -> nat
    decreases hand.len(),
{
    if hand.len() == 0 {
        0
    } else {
        count_kind(hand.drop_last(), kind) + if hand.last() == kind {
            1nat
        } else {
            0nat
        }
    }
}

/// `i` is the index of the first entry of the given kind.
pub open spec fn is_first_of(hand: Seq<InsectType>, kind: InsectType, i: int) -> bool {
    &&& 0 <= i < hand.len()
    &&& hand[i] == kind
    &&& forall|j: int| 0 <= j < i ==> hand[j] != kind
}

/// The inventory without its first entry of the given kind.
pub open spec fn without_first(hand: Seq<InsectType>, kind: InsectType) -> Seq<InsectType> {
    hand.remove(choose|i: int| #[trigger] is_first_of(hand, kind, i))
}

/// An inventory has at most one first entry of a kind.
pub proof fn lemma_first_is_unique(hand: Seq<InsectType>, kind: InsectType, i: int)
    requires
        is_first_of(hand, kind, i),
    ensures
        without_first(hand, kind) == hand.remove(i),
{
    let k = choose|k: int| #[trigger] is_first_of(hand, kind, k);
    if k < i {
        assert(hand[k] != kind);
    } else if i < k {
        assert(hand[i] != kind);
    }
}

/// An inventory that holds a kind has a first entry of that kind.
pub proof fn lemma_first_exists(hand: Seq<InsectType>, kind: InsectType)
    requires
        hand.contains(kind),
    ensures
        exists|i: int| #[trigger] is_first_of(hand, kind, i),
    decreases hand.len(),
{
    let k = choose|k: int| 0 <= k < hand.len() && hand[k] == kind;
    if hand[0] == kind {
        assert(is_first_of(hand, kind, 0));
    } else {
        let rest = hand.drop_first();
        assert(rest[k - 1] == kind);
        lemma_first_exists(rest, kind);
        let i = choose|i: int| #[trigger] is_first_of(rest, kind, i);
        assert forall|j: int| 0 <= j < i + 1 implies hand[j] != kind by {
            if j > 0 {
                assert(rest[j - 1] != kind);
            }
        }
        assert(is_first_of(hand, kind, i + 1));
    }
}

/// One more piece changes the count by one exactly if it is in the hand counted.
pub proof fn lemma_count_in_hand_push(
    pieces: Seq<Piece>,
    piece: Piece,
    player: Player,
    kind: InsectType,
)
    ensures
        count_in_hand(pieces.push(piece), player, kind) == count_in_hand(pieces, player, kind)
            + if is_in_hand(piece, player, kind) {
            1nat
        } else {
            0nat
        },
{
    assert(pieces.push(piece).drop_last() =~= pieces);
}

/// One more entry changes the count by one exactly if it is of the kind counted.
pub proof fn lemma_count_kind_push(hand: Seq<InsectType>, entry: InsectType, kind: InsectType)
    ensures
        count_kind(hand.push(entry), kind) == count_kind(hand, kind) + if entry == kind {
            1nat
        } else {
            0nat
        },
{
    assert(hand.push(entry).drop_last() =~= hand);
}

/// A kind is counted in an inventory exactly if the inventory holds it.
pub proof fn lemma_count_kind_positive(hand: Seq<InsectType>, kind: InsectType)
    ensures
        count_kind(hand, kind) > 0 <==> hand.contains(kind),
    decreases hand.len(),
{
    if hand.len() > 0 {
        let shorter = hand.drop_last();
        lemma_count_kind_positive(shorter, kind);
        if shorter.contains(kind) {
            let i = choose|i: int| 0 <= i < shorter.len() && shorter[i] == kind;
            assert(hand[i] == kind);
        }
        if hand.contains(kind) {
            let i = choose|i: int| 0 <= i < hand.len() && hand[i] == kind;
            if i < shorter.len() {
                assert(shorter[i] == kind);
            }
        }
    }
}

/// A piece in hand is counted.
pub proof fn lemma_count_in_hand_positive(pieces: Seq<Piece>, i: int)
    requires
        0 <= i < pieces.len(),
        pieces[i].position is None,
    ensures
        count_in_hand(pieces, pieces[i].player, pieces[i].insect_type) > 0,
    decreases pieces.len(),
{
    if i < pieces.len() - 1 {
        lemma_count_in_hand_positive(pieces.drop_last(), i);
    }
}

/// Taking an entry out of an inventory lowers the count of its kind by one and leaves the
/// other counts.
pub proof fn lemma_count_kind_remove(hand: Seq<InsectType>, i: int, kind: InsectType)
    requires
        0 <= i < hand.len(),
    ensures
        count_kind(hand.remove(i), kind) + (if hand[i] == kind {
            1nat
        } else {
            0nat
        }) == count_kind(hand, kind),
    decreases hand.len(),
{
    if i == hand.len() - 1 {
        assert(hand.remove(i) =~= hand.drop_last());
    } else {
        lemma_count_kind_remove(hand.drop_last(), i, kind);
        assert(hand.remove(i).drop_last() =~= hand.drop_last().remove(i));
        assert(hand.remove(i).last() == hand.last());
    }
}

/// The counts change only with the pieces that enter or leave a hand: where one piece
/// leaves its owner's hand and every other piece keeps its owner, its kind and its place
/// in or out of a hand, the count of that piece's kind in its owner's hand falls by one
/// and no other count changes.
pub proof fn lemma_count_in_hand_after_placing(
    before: Seq<Piece>,
    after: Seq<Piece>,
    index: int,
    player: Player,
    kind: InsectType,
)
    requires
        before.len() == after.len(),
        0 <= index < before.len(),
        before[index].position is None,
        after[index].position is Some,
        forall|i: int|
            0 <= i < before.len() && i != index ==> (#[trigger] after[i]).position is None
                == before[i].position is None && after[i].player == before[i].player
                && after[i].insect_type == before[i].insect_type,
    ensures
        count_in_hand(after, player, kind) + (if is_in_hand(before[index], player, kind) {
            1nat
        } else {
            0nat
        }) == count_in_hand(before, player, kind),
    decreases before.len(),
{
    if index == before.len() - 1 {
        lemma_count_in_hand_unchanged(before.drop_last(), after.drop_last(), player, kind);
    } else {
        lemma_count_in_hand_after_placing(
            before.drop_last(),
            after.drop_last(),
            index,
            player,
            kind,
        );
        assert(after[after.len() - 1].player == before[before.len() - 1].player);
    }
}

/// Where every piece keeps its owner, its kind and its place in or out of a hand, no count
/// changes.
pub proof fn lemma_count_in_hand_unchanged(
    before: Seq<Piece>,
    after: Seq<Piece>,
    player: Player,
    kind: InsectType,
)
    requires
        before.len() == after.len(),
        forall|i: int|
            0 <= i < before.len() ==> (#[trigger] after[i]).position is None
                == before[i].position is None && after[i].player == before[i].player
                && after[i].insect_type == before[i].insect_type,
    ensures
        count_in_hand(after, player, kind) == count_in_hand(before, player, kind),
    decreases before.len(),
{
    if before.len() > 0 {
        lemma_count_in_hand_unchanged(before.drop_last(), after.drop_last(), player, kind);
        assert(after[after.len() - 1].player == before[before.len() - 1].player);
    }
}

} // verus!
