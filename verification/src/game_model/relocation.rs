use crate::data::components::Level;
use crate::data::enums::InsectType;
use crate::board::touches;
use crate::game_model::piece::{
    apart, covered_well, index_at, lemma_below_is_covered, lemma_level_exists, lemma_stack_top,
    lemma_top_is_highest, occupied_cells, piece_wf, pieces_wf, rests_on, rests_well, top_index,
    Piece,
};
use crate::hex_coordinate::{HexCoordinate, HexDirection};
use crate::hive::{is_one_hive, lemma_one_hive_with_neighbor};
use crate::rules::{
    ant_moves, beetle_moves, grasshopper_moves, lemma_ant_keeps_contact,
    lemma_beetle_steps_contains, lemma_grasshopper_keeps_contact, lemma_queen_keeps_contact,
    lemma_spider_keeps_contact, queen_moves, spider_moves,
};
use vstd::prelude::*;
use vstd::set_lib::{lemma_int_range, lemma_len_subset, lemma_map_size, set_int_range};

verus! {

/// The pieces once the piece at `index` is lifted: the piece it rested on, if any, is no
/// longer covered.
pub open spec fn lifted(pieces: Seq<Piece>, index: int) -> Seq<Piece> {
    match pieces[index].resting_on {
        Some(below) => pieces.update(below - 1, Piece { covered: false, ..pieces[below - 1] }),
        None => pieces,
    }
}

/// The piece at `index` as it stands after its move to `to`: on the ground where the cell
/// is empty, else on the piece that lies on top of the cell.
pub open spec fn moved_piece(pieces: Seq<Piece>, index: int, to: HexCoordinate) -> Piece {
    if occupied_cells(pieces).contains(to) {
        let top = pieces[top_index(pieces, to)];
        Piece {
            position: Some(to),
            level: Level((top.level.0 + 1) as u32),
            resting_on: Some(top.id),
            covered: false,
            ..pieces[index]
        }
    } else {
        Piece {
            position: Some(to),
            level: Level(0),
            resting_on: None,
            covered: false,
            ..pieces[index]
        }
    }
}

/// The pieces after the piece at `index` has moved to `to`, or has been placed there.
pub open spec fn pieces_after(pieces: Seq<Piece>, index: int, to: HexCoordinate) -> Seq<Piece> {
    let others = lifted(pieces, index);
    let moved = moved_piece(pieces, index, to);
    if occupied_cells(pieces).contains(to) {
        let top = top_index(pieces, to);
        others.update(top, Piece { covered: true, ..pieces[top] }).update(index, moved)
    } else {
        others.update(index, moved)
    }
}

/// The index of one of the pieces of a stack, or of another piece: for a level up to
/// `height`, the piece at that level of the cell; for other numbers, `other`.
pub open spec fn stack_or_other(
    pieces: Seq<Piece>,
    cell: HexCoordinate,
    height: int,
    other: int,
) -> spec_fn(int) -> int {
    |level: int|
        if level <= height {
            index_at(pieces, cell, level)
        } else {
            other
        }
}

/// A stack leaves room for the pieces that are not part of it: the level of a piece on a
/// cell and the pieces that do not stand on that cell.
pub proof fn lemma_stack_leaves_room(pieces: Seq<Piece>, top: int, other: int)
    requires
        pieces_wf(pieces),
        0 <= top < pieces.len(),
        0 <= other < pieces.len(),
        pieces[top].position is Some,
        pieces[other].position != pieces[top].position,
    ensures
        pieces[top].level.0 + 2 <= pieces.len(),
{
    let cell = pieces[top].position->Some_0;
    let height = pieces[top].level.0 as int;
    let levels = set_int_range(0, height + 2);
    let choice = stack_or_other(pieces, cell, height, other);
    let indices = levels.map(choice);
    lemma_int_range(0, height + 2);
    lemma_int_range(0, pieces.len() as int);
    assert forall|a: int, b: int|
        levels.contains(a) && levels.contains(b) && #[trigger] choice(a) == #[trigger] choice(
            b,
        ) implies a == b by {
        if a <= height {
            lemma_level_exists(pieces, top, a);
        }
        if b <= height {
            lemma_level_exists(pieces, top, b);
        }
    }
    lemma_map_size(levels, indices, choice);
    assert forall|i: int| indices.contains(i) implies set_int_range(
        0,
        pieces.len() as int,
    ).contains(i) by {
        let level = choose|level: int| levels.contains(level) && i == choice(level);
        if level <= height {
            lemma_level_exists(pieces, top, level);
        }
    }
    lemma_len_subset(indices, set_int_range(0, pieces.len() as int));
}

/// A move keeps the pieces well formed: where the piece that moves is not covered, moves
/// to another cell than its own, and is a beetle if that cell is occupied.
pub proof fn lemma_move_keeps_pieces_wf(pieces: Seq<Piece>, index: int, to: HexCoordinate)
    requires
        pieces_wf(pieces),
        0 <= index < pieces.len(),
        !pieces[index].covered,
        pieces[index].position != Some(to),
        occupied_cells(pieces).contains(to) ==> pieces[index].insect_type == InsectType::Beetle,
    ensures
        pieces_wf(pieces_after(pieces, index, to)),
        pieces_after(pieces, index, to).len() == pieces.len(),
        forall|i: int|
            0 <= i < pieces.len() ==> {
                let before = pieces[i];
                let after = #[trigger] pieces_after(pieces, index, to)[i];
                &&& after.id == before.id
                &&& after.player == before.player
                &&& after.insect_type == before.insect_type
                &&& i != index ==> after.position == before.position && after.level
                    == before.level && after.resting_on == before.resting_on
            },
        pieces_after(pieces, index, to)[index] == moved_piece(pieces, index, to),
{
    let after = pieces_after(pieces, index, to);
    let count = pieces.len() as int;
    let taken = occupied_cells(pieces).contains(to);
    let top = top_index(pieces, to);
    assert(piece_wf(pieces[index], count));
    assert(rests_well(pieces, index));
    if taken {
        lemma_stack_top(pieces, to);
        lemma_top_is_highest(pieces, to, top);
        lemma_stack_leaves_room(pieces, top, index);
        assert(piece_wf(pieces[top], count));
    }
    assert forall|i: int| 0 <= i < count implies {
        let before = pieces[i];
        let now = #[trigger] after[i];
        &&& now.id == before.id
        &&& now.player == before.player
        &&& now.insect_type == before.insect_type
        &&& i != index ==> now.position == before.position && now.level == before.level
            && now.resting_on == before.resting_on
    } by {}
    assert forall|i: int| 0 <= i < count implies piece_wf(#[trigger] after[i], count) by {
        assert(piece_wf(pieces[i], count));
    }
    assert forall|i: int, j: int| 0 <= i < count && 0 <= j < count && i != j implies #[trigger] apart(
        after,
        i,
        j,
    ) by {
        assert(apart(pieces, i, j));
    }
    assert forall|i: int| 0 <= i < count implies #[trigger] rests_well(after, i) by {
        assert(rests_well(pieces, i));
        if i != index {
            match pieces[i].resting_on {
                Some(under) => {
                    assert(piece_wf(pieces[i], count));
                    if pieces[index].resting_on == Some(under) {
                        assert(apart(pieces, i, index));
                    }
                },
                None => {},
            }
        }
    }
    assert forall|i: int| 0 <= i < count implies #[trigger] covered_well(after, i) by {
        assert(covered_well(pieces, i));
        if after[i].covered {
            if taken && i == top {
                assert(rests_on(after, index, i));
            } else {
                let j = choose|j: int| #[trigger] rests_on(pieces, j, i);
                assert(rests_on(after, j, i));
            }
        }
    }
}

/// The cells to which the piece at `index`, which is on the board, may move: none where
/// the piece is covered, none where it stands on the ground and the other pieces would not
/// be one hive without it; else what the rules of its kind give on the board without its
/// cell.
pub open spec fn relocation_cells(pieces: Seq<Piece>, index: int) -> Set<HexCoordinate> {
    let piece = pieces[index];
    let from = piece.position->Some_0;
    let rest = occupied_cells(pieces).remove(from);
    if piece.covered {
        Set::empty()
    } else if piece.level.0 == 0 && !is_one_hive(rest) {
        Set::empty()
    } else {
        match piece.insect_type {
            InsectType::Queen => queen_moves(rest, from).to_set(),
            InsectType::Ant => ant_moves(rest, from),
            InsectType::Spider => spider_moves(rest, from),
            InsectType::Grasshopper => grasshopper_moves(rest, from).to_set(),
            InsectType::Beetle => beetle_moves(rest, from, piece.level.0 > 0).to_set(),
        }
    }
}

/// A piece on the board moves to another cell than its own, and only a beetle moves to an
/// occupied cell. The cell it moves to is, or touches, a cell that stays occupied when the
/// piece leaves.
pub proof fn lemma_relocation_is_sound(pieces: Seq<Piece>, index: int, to: HexCoordinate)
    requires
        pieces_wf(pieces),
        0 <= index < pieces.len(),
        pieces[index].position is Some,
        relocation_cells(pieces, index).contains(to),
    ensures
        !pieces[index].covered,
        pieces[index].position != Some(to),
        occupied_cells(pieces).contains(to) ==> pieces[index].insect_type == InsectType::Beetle,
        pieces[index].level.0 == 0 ==> {
            let rest = occupied_cells(pieces).remove(pieces[index].position->Some_0);
            is_one_hive(rest) && (rest.contains(to) || touches(rest, to))
        },
        pieces[index].level.0 > 0 ==> (pieces[index].position->Some_0).is_adjacent(to),
{
    let piece = pieces[index];
    let from = piece.position->Some_0;
    let occupied = occupied_cells(pieces);
    let rest = occupied.remove(from);
    assert(piece_wf(pieces[index], pieces.len() as int));
    match piece.insect_type {
        InsectType::Queen => {
            lemma_queen_keeps_contact(rest, from, to);
        },
        InsectType::Ant => {
            lemma_ant_keeps_contact(rest, from, to);
        },
        InsectType::Spider => {
            lemma_spider_keeps_contact(rest, from, to);
        },
        InsectType::Grasshopper => {
            lemma_grasshopper_keeps_contact(rest, from, to);
        },
        InsectType::Beetle => {
            lemma_beetle_steps_contains(rest, from, piece.level.0 > 0, 6, to);
            let d = choose|d: HexDirection| from.neighbor(d) == to;
        },
    }
}

/// The cells that are occupied after a move: the cell that the piece moves to and the cells
/// that were occupied before, but for the cell that the piece leaves if it stood there
/// alone.
pub proof fn lemma_occupied_after_move(pieces: Seq<Piece>, index: int, to: HexCoordinate)
    requires
        pieces_wf(pieces),
        0 <= index < pieces.len(),
        !pieces[index].covered,
    ensures
        occupied_cells(pieces_after(pieces, index, to)) == match pieces[index].position {
            Some(from) => if pieces[index].level.0 == 0 {
                occupied_cells(pieces).remove(from).insert(to)
            } else {
                occupied_cells(pieces).insert(to)
            },
            None => occupied_cells(pieces).insert(to),
        },
{
    let after = pieces_after(pieces, index, to);
    let before = occupied_cells(pieces);
    let wanted = match pieces[index].position {
        Some(from) => if pieces[index].level.0 == 0 {
            before.remove(from).insert(to)
        } else {
            before.insert(to)
        },
        None => before.insert(to),
    };
    assert(rests_well(pieces, index));
    assert(piece_wf(pieces[index], pieces.len() as int));
    if before.contains(to) {
        lemma_stack_top(pieces, to);
    }
    assert(after.len() == pieces.len());
    assert forall|i: int| 0 <= i < pieces.len() && i != index implies (#[trigger] after[i]).position
        == pieces[i].position by {}
    assert(after[index].position == Some(to));
    assert forall|c: HexCoordinate| occupied_cells(after).contains(c) <==> wanted.contains(c) by {
        if occupied_cells(after).contains(c) {
            let i = choose|i: int| 0 <= i < after.len() && (#[trigger] after[i]).position == Some(c);
            if i != index {
                assert(pieces[i].position == Some(c));
                if pieces[index].position == Some(c) && pieces[index].level.0 == 0 {
                    assert(apart(pieces, i, index));
                    lemma_below_is_covered(pieces, index, i);
                }
            }
        }
        if wanted.contains(c) {
            if c == to {
                assert(after[index].position == Some(c));
            } else {
                let i = choose|i: int|
                    0 <= i < pieces.len() && (#[trigger] pieces[i]).position == Some(c);
                if i != index {
                    assert(after[i].position == Some(c));
                } else {
                    let below = pieces[index].resting_on->Some_0;
                    assert(after[below - 1].position == Some(c));
                }
            }
        }
    }
    assert(occupied_cells(after) =~= wanted);
}

/// A move on the board keeps the hive in one: where the pieces are one hive and the piece
/// at `index` makes one of its legal moves, what stands on the board after the move is one
/// hive.
pub proof fn lemma_relocation_keeps_one_hive(pieces: Seq<Piece>, index: int, to: HexCoordinate)
    requires
        pieces_wf(pieces),
        is_one_hive(occupied_cells(pieces)),
        0 <= index < pieces.len(),
        pieces[index].position is Some,
        relocation_cells(pieces, index).contains(to),
    ensures
        is_one_hive(occupied_cells(pieces_after(pieces, index, to))),
{
    let from = pieces[index].position->Some_0;
    let occupied = occupied_cells(pieces);
    let rest = occupied.remove(from);
    lemma_relocation_is_sound(pieces, index, to);
    lemma_occupied_after_move(pieces, index, to);
    if pieces[index].level.0 == 0 {
        if rest.contains(to) {
            assert(rest.insert(to) =~= rest);
        } else {
            let near = choose|o: HexCoordinate| rest.contains(o) && #[trigger] o.is_adjacent(to);
            lemma_one_hive_with_neighbor(rest, near, to);
        }
    } else {
        assert(occupied.contains(from));
        lemma_one_hive_with_neighbor(occupied, from, to);
    }
}

} // verus!
