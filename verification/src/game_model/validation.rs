use crate::board::Board;
use crate::data::enums::{InsectType, Player};
use crate::game_model::game_state::GameState;
use crate::game_model::hands::{
    count_in_hand, count_kind, is_in_hand, lemma_count_in_hand_push, lemma_count_kind_push,
};
use crate::game_model::piece::{
    apart, covered_well, occupied_cells, piece_wf, pieces_wf, rests_on, rests_well, Piece,
};
use crate::hex_coordinate::HexCoordinate;
use crate::hive::is_connected;
use vstd::prelude::*;

verus! {

/// Tells whether both are the same cell, or both none.
pub fn same_cell(a: Option<HexCoordinate>, b: Option<HexCoordinate>) -> (same: bool)
    ensures
        same == (a == b),
{
    match (a, b) {
        (Some(first), Some(second)) => first == second,
        (None, None) => true,
        _ => false,
    }
}

/// Tells whether the piece by itself is well formed as one of `count` pieces.
pub fn is_piece_well_formed(piece: &Piece, count: usize) -> (ok: bool)
    ensures
        ok == piece_wf(*piece, count as int),
{
    let on_ground = piece.level.0 == 0;
    if piece.level.0 as usize >= count {
        return false;
    }
    if on_ground != piece.resting_on.is_none() {
        return false;
    }
    if !on_ground && piece.insect_type != InsectType::Beetle {
        return false;
    }
    piece.position.is_some() || (on_ground && !piece.covered)
}

/// Tells whether the piece at `i` rests well: on nothing, or on a covered piece that
/// stands on the same cell one level lower.
pub fn does_rest_well(pieces: &Vec<Piece>, i: usize) -> (ok: bool)
    requires
        i < pieces@.len(),
    ensures
        ok == rests_well(pieces@, i as int),
{
    let piece = pieces[i];
    match piece.resting_on {
        Some(below) => {
            if below == 0 || below as usize > pieces.len() {
                return false;
            }
            let lower = pieces[(below - 1) as usize];
            piece.position.is_some() && same_cell(lower.position, piece.position)
                && lower.level.0 < piece.level.0 && lower.level.0 + 1 == piece.level.0
                && lower.covered
        },
        None => true,
    }
}

/// Tells whether a piece rests on the piece at `i` if that piece is covered.
pub fn is_covered_well(pieces: &Vec<Piece>, i: usize) -> (ok: bool)
    requires
        i < pieces@.len(),
    ensures
        ok == covered_well(pieces@, i as int),
{
    let piece = pieces[i];
    if !piece.covered {
        return true;
    }
    let mut j: usize = 0;
    while j < pieces.len()
        invariant
            j <= pieces@.len(),
            i < pieces@.len(),
            piece == pieces@[i as int],
            forall|k: int| 0 <= k < j ==> !#[trigger] rests_on(pieces@, k, i as int),
        decreases pieces@.len() - j,
    {
        match pieces[j].resting_on {
            Some(below) => {
                if below == piece.id {
                    assert(rests_on(pieces@, j as int, i as int));
                    return true;
                }
            },
            None => {},
        }
        j += 1;
    }
    false
}

/// Tells whether the piece at `i` stands apart from every piece before it in the list.
pub fn stands_apart(pieces: &Vec<Piece>, i: usize) -> (ok: bool)
    requires
        i < pieces@.len(),
    ensures
        ok == forall|j: int| 0 <= j < i ==> #[trigger] apart(pieces@, i as int, j),
{
    let piece = pieces[i];
    if piece.position.is_none() {
        return true;
    }
    let mut j: usize = 0;
    while j < i
        invariant
            j <= i,
            i < pieces@.len(),
            piece == pieces@[i as int],
            piece.position is Some,
            forall|k: int| 0 <= k < j ==> #[trigger] apart(pieces@, i as int, k),
        decreases i - j,
    {
        let other = pieces[j];
        if same_cell(piece.position, other.position) && piece.level.0 == other.level.0 {
            assert(!apart(pieces@, i as int, j as int));
            return false;
        }
        j += 1;
    }
    true
}

/// Tells whether the pieces are well formed.
pub fn are_pieces_well_formed(pieces: &Vec<Piece>) -> (ok: bool)
    ensures
        ok == pieces_wf(pieces@),
{
    if pieces.len() >= 4294967295 {
        return false;
    }
    let mut i: usize = 0;
    while i < pieces.len()
        invariant
            i <= pieces@.len(),
            pieces@.len() < u32::MAX,
            forall|k: int| 0 <= k < i ==> (#[trigger] pieces@[k]).id == k + 1,
            forall|k: int| 0 <= k < i ==> piece_wf(#[trigger] pieces@[k], pieces@.len() as int),
            forall|k: int| 0 <= k < i ==> #[trigger] rests_well(pieces@, k),
            forall|k: int| 0 <= k < i ==> #[trigger] covered_well(pieces@, k),
            forall|k: int, j: int| 0 <= j < k < i ==> #[trigger] apart(pieces@, k, j),
        decreases pieces@.len() - i,
    {
        let piece = pieces[i];
        if piece.id as usize != i + 1 {
            return false;
        }
        if !is_piece_well_formed(&piece, pieces.len()) {
            return false;
        }
        if !does_rest_well(pieces, i) {
            assert(!rests_well(pieces@, i as int));
            return false;
        }
        if !is_covered_well(pieces, i) {
            assert(!covered_well(pieces@, i as int));
            return false;
        }
        if !stands_apart(pieces, i) {
            let ghost j = choose|j: int| 0 <= j < i && !#[trigger] apart(pieces@, i as int, j);
            assert(!apart(pieces@, i as int, j));
            return false;
        }
        i += 1;
    }
    proof {
        assert forall|a: int, b: int|
            0 <= a < pieces@.len() && 0 <= b < pieces@.len() && a != b implies #[trigger] apart(
            pieces@,
            a,
            b,
        ) by {
            if a < b {
                assert(apart(pieces@, b, a));
            }
        }
    }
    true
}

/// The number of pieces of the given kind that `player` has in hand.
pub fn count_held(pieces: &Vec<Piece>, player: Player, kind: InsectType) -> (count: usize)
    ensures
        count == count_in_hand(pieces@, player, kind),
{
    let mut count: usize = 0;
    let mut i: usize = 0;
    while i < pieces.len()
        invariant
            i <= pieces@.len(),
            count <= i,
            count == count_in_hand(pieces@.subrange(0, i as int), player, kind),
        decreases pieces@.len() - i,
    {
        let piece = pieces[i];
        proof {
            lemma_count_in_hand_push(pieces@.subrange(0, i as int), piece, player, kind);
            assert(pieces@.subrange(0, i + 1) =~= pieces@.subrange(0, i as int).push(piece));
        }
        if piece.position.is_none() && piece.player == player && piece.insect_type == kind {
            assert(is_in_hand(piece, player, kind));
            count += 1;
        }
        i += 1;
    }
    assert(pieces@.subrange(0, i as int) =~= pieces@);
    count
}

/// The number of entries of the given kind in an inventory.
pub fn count_entries(hand: &Vec<InsectType>, kind: InsectType) -> (count: usize)
    ensures
        count == count_kind(hand@, kind),
{
    let mut count: usize = 0;
    let mut i: usize = 0;
    while i < hand.len()
        invariant
            i <= hand@.len(),
            count <= i,
            count == count_kind(hand@.subrange(0, i as int), kind),
        decreases hand@.len() - i,
    {
        proof {
            lemma_count_kind_push(hand@.subrange(0, i as int), hand@[i as int], kind);
            assert(hand@.subrange(0, i + 1) =~= hand@.subrange(0, i as int).push(hand@[i as int]));
        }
        if hand[i] == kind {
            count += 1;
        }
        i += 1;
    }
    assert(hand@.subrange(0, i as int) =~= hand@);
    count
}

impl GameState {
    /// The inventory of `player` holds of `kind` as many entries as `player` has pieces of
    /// that kind in hand.
    pub open spec fn in_step(self, player: Player, kind: InsectType) -> bool {
        count_in_hand(self.pieces@, player, kind) == count_kind(
            self.inventory_of(player).pieces@,
            kind,
        )
    }

    /// Tells whether the inventory of `player` is in step with the hand of `player`.
    pub fn is_hand_in_step(&self, player: Player) -> (ok: bool)
        ensures
            ok == forall|kind: InsectType| #[trigger] self.in_step(player, kind),
    {
        let hand = &self.inventory(player).pieces;
        let ant = count_held(&self.pieces, player, InsectType::Ant) == count_entries(
            hand,
            InsectType::Ant,
        );
        let queen = count_held(&self.pieces, player, InsectType::Queen) == count_entries(
            hand,
            InsectType::Queen,
        );
        let spider = count_held(&self.pieces, player, InsectType::Spider) == count_entries(
            hand,
            InsectType::Spider,
        );
        let grasshopper = count_held(&self.pieces, player, InsectType::Grasshopper)
            == count_entries(hand, InsectType::Grasshopper);
        let beetle = count_held(&self.pieces, player, InsectType::Beetle) == count_entries(
            hand,
            InsectType::Beetle,
        );
        proof {
            assert(ant == self.in_step(player, InsectType::Ant));
            assert(queen == self.in_step(player, InsectType::Queen));
            assert(spider == self.in_step(player, InsectType::Spider));
            assert(grasshopper == self.in_step(player, InsectType::Grasshopper));
            assert(beetle == self.in_step(player, InsectType::Beetle));
            if ant && queen && spider && grasshopper && beetle {
                assert forall|kind: InsectType| #[trigger] self.in_step(player, kind) by {
                    match kind {
                        InsectType::Ant => {},
                        InsectType::Queen => {},
                        InsectType::Spider => {},
                        InsectType::Grasshopper => {},
                        InsectType::Beetle => {},
                    }
                }
            }
        }
        ant && queen && spider && grasshopper && beetle
    }

    /// Tells whether the state is well formed.
    pub fn is_well_formed(&self) -> (ok: bool)
        ensures
            ok == self.wf(),
    {
        if !are_pieces_well_formed(&self.pieces) {
            return false;
        }
        let board = Board::from_pieces(&self.pieces);
        assert(board@.dom() =~= occupied_cells(self.pieces@));
        if !is_connected(&board) {
            return false;
        }
        let first = self.is_hand_in_step(Player::Player1);
        let second = self.is_hand_in_step(Player::Player2);
        proof {
            if first && second {
                assert forall|player: Player, kind: InsectType|
                    #[trigger] count_in_hand(self.pieces@, player, kind) == count_kind(
                        self.inventory_of(player).pieces@,
                        kind,
                    ) by {
                    assert(self.in_step(player, kind));
                }
            } else if !first {
                let kind = choose|kind: InsectType| !#[trigger] self.in_step(Player::Player1, kind);
                assert(!self.in_step(Player::Player1, kind));
            } else {
                let kind = choose|kind: InsectType| !#[trigger] self.in_step(Player::Player2, kind);
                assert(!self.in_step(Player::Player2, kind));
            }
        }
        first && second
    }
}

} // verus!
