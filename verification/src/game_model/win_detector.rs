use crate::board::Board;
use crate::data::enums::{GameResult, InsectType, Player};
use crate::game_model::piece::{occupied_cells, Piece};
use crate::hex_coordinate::{all_directions, lemma_direction_index, HexCoordinate, HexDirection};
use vstd::prelude::*;

verus! {

/// All six neighbours of the cell are occupied.
pub open spec fn is_surrounded(occupied: Set<HexCoordinate>, cell: HexCoordinate) -> bool {
    forall|d: HexDirection| occupied.contains(#[trigger] cell.neighbor(d))
}

/// The piece at `i` is a queen of `player` on the board, and it is surrounded.
pub open spec fn is_beaten_queen(pieces: Seq<Piece>, i: int, player: Player) -> bool {
    &&& pieces[i].insect_type == InsectType::Queen
    &&& pieces[i].player == player
    &&& pieces[i].position is Some
    &&& is_surrounded(occupied_cells(pieces), pieces[i].position->Some_0)
}

/// A queen of `player` is surrounded.
pub open spec fn queen_surrounded(pieces: Seq<Piece>, player: Player) -> bool {
    exists|i: int| 0 <= i < pieces.len() && #[trigger] is_beaten_queen(pieces, i, player)
}

/// How the game stands after a move of `mover`: it goes on unless the queen of the other
/// player is surrounded; it is then won by `mover`, or drawn if the queen of `mover` is
/// surrounded too.
pub open spec fn outcome(pieces: Seq<Piece>, mover: Player) -> Option<GameResult> {
    if !queen_surrounded(pieces, mover.opponent()) {
        None
    } else if queen_surrounded(pieces, mover) {
        Some(GameResult::Draw)
    } else {
        Some(GameResult::PlayerWon(mover))
    }
}

/// Tells whether all six neighbours of the cell are occupied.
pub fn is_cell_surrounded(board: &Board, cell: HexCoordinate) -> (surrounded: bool)
    ensures
        surrounded == is_surrounded(board.occupied(), cell),
{
    let directions = all_directions();
    let mut i: usize = 0;
    while i < 6
        invariant
            i <= 6,
            forall|k: int| 0 <= k < 6 ==> directions[k] == HexDirection::from_index(k),
            forall|d: HexDirection|
                d.index() < i ==> board.occupied().contains(#[trigger] cell.neighbor(d)),
        decreases 6 - i,
    {
        let relative_position = cell.get_relative(&directions[i]);
        if !board.is_occupied(&relative_position) {
            return false;
        }
        proof {
            assert forall|d: HexDirection| d.index() < i + 1 implies board.occupied().contains(
                #[trigger] cell.neighbor(d),
            ) by {
                lemma_direction_index(d);
            }
        }
        i += 1;
    }
    proof {
        assert forall|d: HexDirection| board.occupied().contains(#[trigger] cell.neighbor(d)) by {
            lemma_direction_index(d);
        }
    }
    true
}

/// Tells whether a queen of `player` is surrounded.
pub fn has_surrounded_queen(pieces: &Vec<Piece>, board: &Board, player: Player) -> (beaten: bool)
    requires
        board.occupied() == occupied_cells(pieces@),
    ensures
        beaten == queen_surrounded(pieces@, player),
{
    let mut i: usize = 0;
    while i < pieces.len()
        invariant
            i <= pieces@.len(),
            board.occupied() == occupied_cells(pieces@),
            forall|k: int| 0 <= k < i ==> !#[trigger] is_beaten_queen(pieces@, k, player),
        decreases pieces@.len() - i,
    {
        let piece = pieces[i];
        match piece.position {
            Some(cell) => {
                if piece.insect_type == InsectType::Queen && piece.player == player
                    && is_cell_surrounded(board, cell) {
                    assert(is_beaten_queen(pieces@, i as int, player));
                    return true;
                }
            },
            None => {},
        }
        i += 1;
    }
    false
}

/// How the game stands after a move of `mover` that led to the given pieces.
pub fn result_after_move(pieces: &Vec<Piece>, board: &Board, mover: Player) -> (result: Option<
    GameResult,
>)
    requires
        board.occupied() == occupied_cells(pieces@),
    ensures
        result == outcome(pieces@, mover),
{
    if !has_surrounded_queen(pieces, board, mover.other()) {
        None
    } else if has_surrounded_queen(pieces, board, mover) {
        Some(GameResult::Draw)
    } else {
        Some(GameResult::PlayerWon(mover))
    }
}

} // verus!
