use crate::board::Board;
use crate::data::components::Level;
use crate::data::enums::{InsectType, Player};
use crate::hex_coordinate::HexCoordinate;
use vstd::prelude::*;

verus! {

/// A piece of the game, in a player's hand or on the board.
#[derive(Clone, Copy, Debug, PartialEq, Eq)]
pub struct Piece {
    /// Identity of the piece: its position in the list of all pieces, counted from one.
    pub id: u32,
    pub insect_type: InsectType,
    /// The player who owns the piece.
    pub player: Player,
    /// The cell on which the piece stands; `None` while it is in its owner's hand.
    pub position: Option<HexCoordinate>,
    /// The number of pieces beneath the piece.
    pub level: Level,
    /// The id of the piece directly beneath the piece, if there is one.
    pub resting_on: Option<u32>,
    /// Another piece rests on the piece.
    pub covered: bool,
}

/// A piece stands on the cell at the level.
pub open spec fn stands_at(piece: Piece, cell: HexCoordinate, level: int) -> bool {
    piece.position == Some(cell) && piece.level.0 == level
}

/// What holds of each piece by itself: in hand it lies on nothing and under nothing; it
/// stands on the ground exactly if it rests on no piece, and only a beetle stands higher.
pub open spec fn piece_wf(piece: Piece, count: int) -> bool {
    &&& piece.level.0 < count
    &&& (piece.level.0 == 0 <==> piece.resting_on is None)
    &&& piece.level.0 > 0 ==> piece.insect_type == InsectType::Beetle
    &&& piece.position is None ==> piece.level.0 == 0 && !piece.covered
}

/// The pieces at `i` and `j` do not stand on the same cell at the same level.
pub open spec fn apart(pieces: Seq<Piece>, i: int, j: int) -> bool {
    pieces[i].position is Some && pieces[i].position == pieces[j].position ==> pieces[i].level
        != pieces[j].level
}

/// The piece at `upper` rests on the piece at `lower`.
pub open spec fn rests_on(pieces: Seq<Piece>, upper: int, lower: int) -> bool {
    0 <= upper < pieces.len() && pieces[upper].resting_on == Some(pieces[lower].id)
}

/// Where the piece at `i` rests on a piece, that piece is covered and stands on the same
/// cell one level lower.
pub open spec fn rests_well(pieces: Seq<Piece>, i: int) -> bool {
    match pieces[i].resting_on {
        Some(below) => {
            &&& 1 <= below <= pieces.len()
            &&& pieces[i].position is Some
            &&& pieces[below - 1].position == pieces[i].position
            &&& pieces[below - 1].level.0 + 1 == pieces[i].level.0
            &&& pieces[below - 1].covered
        },
        None => true,
    }
}

/// Where the piece at `i` is covered, a piece rests on it.
pub open spec fn covered_well(pieces: Seq<Piece>, i: int) -> bool {
    pieces[i].covered ==> exists|j: int| #[trigger] rests_on(pieces, j, i)
}

/// The pieces are numbered from one in the order of the list, no two of them stand on the
/// same cell at the same level, each piece that rests on another stands one level above
/// it on the same cell, and the covered pieces are those on which another rests.
pub open spec fn pieces_wf(pieces: Seq<Piece>) -> bool {
    &&& pieces.len() < u32::MAX
    &&& forall|i: int| 0 <= i < pieces.len() ==> (#[trigger] pieces[i]).id == i + 1
    &&& forall|i: int| 0 <= i < pieces.len() ==> piece_wf(#[trigger] pieces[i], pieces.len() as int)
    &&& forall|i: int, j: int|
        0 <= i < pieces.len() && 0 <= j < pieces.len() && i != j ==> #[trigger] apart(pieces, i, j)
    &&& forall|i: int| 0 <= i < pieces.len() ==> #[trigger] rests_well(pieces, i)
    &&& forall|i: int| 0 <= i < pieces.len() ==> #[trigger] covered_well(pieces, i)
}

/// The cells on which a piece stands.
pub open spec fn occupied_cells(pieces: Seq<Piece>) -> Set<HexCoordinate> {
    Set::new(
        |cell: HexCoordinate|
            exists|i: int| 0 <= i < pieces.len() && (#[trigger] pieces[i]).position == Some(cell),
    )
}

/// `i` is the index of the piece that lies on top of the cell's stack.
pub open spec fn is_top_at(pieces: Seq<Piece>, cell: HexCoordinate, i: int) -> bool {
    0 <= i < pieces.len() && pieces[i].position == Some(cell) && !pieces[i].covered
}

/// The index of the piece that lies on top of the cell's stack.
pub open spec fn top_index(pieces: Seq<Piece>, cell: HexCoordinate) -> int {
    choose|i: int| is_top_at(pieces, cell, i)
}

/// The index of the piece that stands on the cell at the level.
pub open spec fn index_at(pieces: Seq<Piece>, cell: HexCoordinate, level: int) -> int {
    choose|i: int| 0 <= i < pieces.len() && stands_at(#[trigger] pieces[i], cell, level)
}

/// The ids of the pieces on the cell, from the bottom to the top.
pub open spec fn stack_of(pieces: Seq<Piece>, cell: HexCoordinate) -> Seq<u32> {
    Seq::new(
        (pieces[top_index(pieces, cell)].level.0 + 1) as nat,
        |level: int| pieces[index_at(pieces, cell, level)].id,
    )
}

/// The board that the pieces make up: each occupied cell with its stack.
pub open spec fn board_of(pieces: Seq<Piece>) -> Map<HexCoordinate, Seq<u32>> {
    Map::new(
        |cell: HexCoordinate| occupied_cells(pieces).contains(cell),
        |cell: HexCoordinate| stack_of(pieces, cell),
    )
}

/// The player who owns the piece on top of the cell's stack.
pub open spec fn owner_at(pieces: Seq<Piece>, cell: HexCoordinate) -> Player {
    pieces[top_index(pieces, cell)].player
}

/// No two distinct pieces stand on the same cell at the same level.
pub proof fn lemma_one_piece_per_level(pieces: Seq<Piece>, i: int, j: int)
    requires
        pieces_wf(pieces),
        0 <= i < pieces.len(),
        0 <= j < pieces.len(),
        pieces[i].position is Some,
        pieces[i].position == pieces[j].position,
        pieces[i].level == pieces[j].level,
    ensures
        i == j,
{
    if i != j {
        assert(apart(pieces, i, j));
    }
}

/// A piece that stands lower than another on the same cell is covered.
pub proof fn lemma_below_is_covered(pieces: Seq<Piece>, i: int, j: int)
    requires
        pieces_wf(pieces),
        0 <= i < pieces.len(),
        0 <= j < pieces.len(),
        pieces[i].position is Some,
        pieces[i].position == pieces[j].position,
        pieces[i].level.0 < pieces[j].level.0,
    ensures
        pieces[i].covered,
    decreases pieces[j].level.0 - pieces[i].level.0,
{
    assert(rests_well(pieces, j));
    assert(piece_wf(pieces[j], pieces.len() as int));
    let below = pieces[j].resting_on->Some_0;
    if pieces[below - 1].level.0 == pieces[i].level.0 {
        lemma_one_piece_per_level(pieces, i, below - 1);
    } else {
        lemma_below_is_covered(pieces, i, below - 1);
    }
}

/// On the cell of a piece on the board some piece is not covered.
pub proof fn lemma_top_exists(pieces: Seq<Piece>, i: int)
    requires
        pieces_wf(pieces),
        0 <= i < pieces.len(),
        pieces[i].position is Some,
    ensures
        is_top_at(pieces, pieces[i].position->Some_0, top_index(pieces, pieces[i].position->Some_0)),
    decreases pieces.len() - pieces[i].level.0,
{
    let cell = pieces[i].position->Some_0;
    if pieces[i].covered {
        assert(covered_well(pieces, i));
        let j = choose|j: int| #[trigger] rests_on(pieces, j, i);
        assert(rests_well(pieces, j));
        assert(pieces[i].id == i + 1);
        assert(piece_wf(pieces[j], pieces.len() as int));
        lemma_top_exists(pieces, j);
    } else {
        assert(is_top_at(pieces, cell, i));
    }
}

/// The piece that is not covered is the only such piece on its cell, and no piece on the
/// cell stands higher.
pub proof fn lemma_top_is_highest(pieces: Seq<Piece>, cell: HexCoordinate, i: int)
    requires
        pieces_wf(pieces),
        is_top_at(pieces, cell, i),
    ensures
        top_index(pieces, cell) == i,
        forall|j: int|
            0 <= j < pieces.len() && (#[trigger] pieces[j]).position == Some(cell)
                ==> pieces[j].level.0 <= pieces[i].level.0,
{
    assert forall|j: int|
        0 <= j < pieces.len() && (#[trigger] pieces[j]).position == Some(
            cell,
        ) implies pieces[j].level.0 <= pieces[i].level.0 by {
        if pieces[j].level.0 > pieces[i].level.0 {
            lemma_below_is_covered(pieces, i, j);
        }
    }
    let t = top_index(pieces, cell);
    if pieces[t].level.0 < pieces[i].level.0 {
        lemma_below_is_covered(pieces, t, i);
    } else if pieces[t].level.0 > pieces[i].level.0 {
        lemma_below_is_covered(pieces, i, t);
    } else {
        lemma_one_piece_per_level(pieces, i, t);
    }
}

/// Beneath a piece every level is taken.
pub proof fn lemma_level_exists(pieces: Seq<Piece>, i: int, level: int)
    requires
        pieces_wf(pieces),
        0 <= i < pieces.len(),
        pieces[i].position is Some,
        0 <= level <= pieces[i].level.0,
    ensures
        0 <= index_at(pieces, pieces[i].position->Some_0, level) < pieces.len(),
        stands_at(
            pieces[index_at(pieces, pieces[i].position->Some_0, level)],
            pieces[i].position->Some_0,
            level,
        ),
    decreases pieces[i].level.0 - level,
{
    let cell = pieces[i].position->Some_0;
    if level == pieces[i].level.0 {
        assert(stands_at(pieces[i], cell, level));
    } else {
        assert(rests_well(pieces, i));
        assert(piece_wf(pieces[i], pieces.len() as int));
        let below = pieces[i].resting_on->Some_0;
        lemma_level_exists(pieces, below - 1, level);
    }
}

/// The piece found at a level of a cell is the piece that stands there.
pub proof fn lemma_index_at(pieces: Seq<Piece>, i: int)
    requires
        pieces_wf(pieces),
        0 <= i < pieces.len(),
        pieces[i].position is Some,
    ensures
        index_at(pieces, pieces[i].position->Some_0, pieces[i].level.0 as int) == i,
{
    let cell = pieces[i].position->Some_0;
    lemma_level_exists(pieces, i, pieces[i].level.0 as int);
    lemma_one_piece_per_level(pieces, i, index_at(pieces, cell, pieces[i].level.0 as int));
}

/// On top of the stack of an occupied cell lies the id of the piece that is not covered.
pub proof fn lemma_stack_top(pieces: Seq<Piece>, cell: HexCoordinate)
    requires
        pieces_wf(pieces),
        occupied_cells(pieces).contains(cell),
    ensures
        is_top_at(pieces, cell, top_index(pieces, cell)),
        stack_of(pieces, cell).len() == pieces[top_index(pieces, cell)].level.0 + 1,
        stack_of(pieces, cell).last() == pieces[top_index(pieces, cell)].id,
        stack_of(pieces, cell).last() == top_index(pieces, cell) + 1,
{
    let i = choose|i: int| 0 <= i < pieces.len() && (#[trigger] pieces[i]).position == Some(cell);
    lemma_top_exists(pieces, i);
    let t = top_index(pieces, cell);
    lemma_index_at(pieces, t);
}

/// A piece stands in the stack of its cell at the height of its level: as many pieces lie
/// beneath it as its level says.
pub proof fn lemma_piece_sits_at_its_level(pieces: Seq<Piece>, i: int)
    requires
        pieces_wf(pieces),
        0 <= i < pieces.len(),
        pieces[i].position is Some,
    ensures
        pieces[i].level.0 < stack_of(pieces, pieces[i].position->Some_0).len(),
        stack_of(pieces, pieces[i].position->Some_0)[pieces[i].level.0 as int] == pieces[i].id,
{
    let cell = pieces[i].position->Some_0;
    lemma_top_exists(pieces, i);
    lemma_top_is_highest(pieces, cell, top_index(pieces, cell));
    lemma_index_at(pieces, i);
}

/// The stack of a cell holds no piece twice.
pub proof fn lemma_stack_has_no_duplicates(pieces: Seq<Piece>, cell: HexCoordinate)
    requires
        pieces_wf(pieces),
        occupied_cells(pieces).contains(cell),
    ensures
        stack_of(pieces, cell).no_duplicates(),
{
    lemma_stack_top(pieces, cell);
    let top = top_index(pieces, cell);
    let stack = stack_of(pieces, cell);
    assert forall|a: int, b: int| 0 <= a < stack.len() && 0 <= b < stack.len() && a != b implies stack[a]
        != stack[b] by {
        lemma_level_exists(pieces, top, a);
        lemma_level_exists(pieces, top, b);
    }
}

impl Board {
    /// The board that the pieces make up.
    pub fn from_pieces(pieces: &Vec<Piece>) -> (board: Board)
        requires
            pieces_wf(pieces@),
        ensures
            board@ == board_of(pieces@),
            board.wf(),
    {
        let mut board = Board::new();
        let mut i: usize = 0;
        while i < pieces.len()
            invariant
                i <= pieces@.len(),
                pieces_wf(pieces@),
                board.wf(),
                forall|cell: HexCoordinate| #[trigger]
                    board@.dom().contains(cell) <==> exists|k: int|
                        0 <= k < i && is_top_at(pieces@, cell, k),
                forall|cell: HexCoordinate| #[trigger]
                    board@.dom().contains(cell) ==> board@[cell] == stack_of(pieces@, cell),
            decreases pieces@.len() - i,
        {
            let piece = pieces[i];
            let ghost before = board@;
            match piece.position {
                Some(cell) => {
                    if !piece.covered {
                        let mut stack: Vec<u32> = Vec::new();
                        stack.push(piece.id);
                        let mut current: usize = i;
                        let mut below = piece.resting_on;
                        proof {
                            lemma_top_is_highest(pieces@, cell, i as int);
                            lemma_index_at(pieces@, i as int);
                        }
                        while below.is_some()
                            invariant
                                pieces_wf(pieces@),
                                i < pieces@.len(),
                                current < pieces@.len(),
                                pieces@[i as int].position == Some(cell),
                                pieces@[current as int].position == Some(cell),
                                below == pieces@[current as int].resting_on,
                                pieces@[current as int].level.0 <= pieces@[i as int].level.0,
                                stack@.len() == pieces@[i as int].level.0
                                    - pieces@[current as int].level.0 + 1,
                                forall|m: int|
                                    0 <= m < stack@.len() ==> #[trigger] stack@[m]
                                        == pieces@[index_at(
                                        pieces@,
                                        cell,
                                        pieces@[current as int].level.0 + m,
                                    )].id,
                            decreases pieces@[current as int].level.0,
                        {
                            let ghost above = stack@;
                            let ghost upper = current;
                            assert(rests_well(pieces@, current as int));
                            assert(piece_wf(pieces@[current as int], pieces@.len() as int));
                            let id_below = below.unwrap();
                            current = (id_below - 1) as usize;
                            stack.insert(0, pieces[current].id);
                            below = pieces[current].resting_on;
                            proof {
                                lemma_index_at(pieces@, current as int);
                                assert forall|m: int| 0 <= m < stack@.len() implies #[trigger] stack@[m]
                                    == pieces@[index_at(
                                    pieces@,
                                    cell,
                                    pieces@[current as int].level.0 + m,
                                )].id by {
                                    if m > 0 {
                                        assert(stack@[m] == above[m - 1]);
                                    }
                                }
                            }
                        }
                        proof {
                            assert(piece_wf(pieces@[current as int], pieces@.len() as int));
                            assert(stack@ =~= stack_of(pieces@, cell));
                        }
                        board.insert_stack(cell, stack);
                    }
                },
                None => {},
            }
            proof {
                assert forall|cell: HexCoordinate| #[trigger]
                    board@.dom().contains(cell) <==> exists|k: int|
                        0 <= k < i + 1 && is_top_at(pieces@, cell, k) by {
                    if before.dom().contains(cell) {
                        let k = choose|k: int| 0 <= k < i && is_top_at(pieces@, cell, k);
                        assert(0 <= k < i + 1 && is_top_at(pieces@, cell, k));
                    }
                    if is_top_at(pieces@, cell, i as int) {
                        assert(board@.dom().contains(cell));
                    }
                    if exists|k: int| 0 <= k < i + 1 && is_top_at(pieces@, cell, k) {
                        let k = choose|k: int| 0 <= k < i + 1 && is_top_at(pieces@, cell, k);
                        if k < i {
                            assert(before.dom().contains(cell));
                        }
                    }
                }
            }
            i += 1;
        }
        proof {
            assert forall|cell: HexCoordinate|
                board@.dom().contains(cell) <==> occupied_cells(pieces@).contains(cell) by {
                if occupied_cells(pieces@).contains(cell) {
                    lemma_stack_top(pieces@, cell);
                    assert(is_top_at(pieces@, cell, top_index(pieces@, cell)));
                }
                if board@.dom().contains(cell) {
                    let k = choose|k: int| 0 <= k < i && is_top_at(pieces@, cell, k);
                    assert(pieces@[k].position == Some(cell));
                }
            }
            assert(board@ =~= board_of(pieces@));
        }
        board
    }
}

} // verus!
