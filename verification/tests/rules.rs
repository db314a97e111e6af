use hive_engine::board::Board;
use hive_engine::hex_coordinate::{all_directions, HexCoordinate, HexDirection};
use hive_engine::hive::is_connected;
use hive_engine::rules::{
    get_moves_for_ant, get_moves_for_beetle, get_moves_for_grasshopper, get_moves_for_queen,
    get_moves_for_spider, slide_from_all,
};

fn cell(x: i32, y: i32) -> HexCoordinate {
    HexCoordinate::new(x, y)
}

fn board_with(cells: &[(i32, i32)]) -> Board {
    let mut board = Board::new();
    let mut id: u32 = 1;
    for (x, y) in cells {
        board.insert_stack(cell(*x, *y), vec![id]);
        id += 1;
    }
    board
}

fn sorted(cells: &Vec<HexCoordinate>) -> Vec<(i32, i32)> {
    let mut pairs: Vec<(i32, i32)> = cells.iter().map(|c| (c.x, c.y)).collect();
    pairs.sort();
    pairs
}

#[test]
fn origin_is_the_zero_cell() {
    assert_eq!(HexCoordinate::origin(), cell(0, 0));
}

#[test]
fn get_relative_follows_the_six_offsets() {
    let c = cell(3, -2);
    assert_eq!(c.get_relative(&HexDirection::UpRight), cell(3, -1));
    assert_eq!(c.get_relative(&HexDirection::Right), cell(4, -2));
    assert_eq!(c.get_relative(&HexDirection::DownRight), cell(4, -3));
    assert_eq!(c.get_relative(&HexDirection::DownLeft), cell(3, -3));
    assert_eq!(c.get_relative(&HexDirection::Left), cell(2, -2));
    assert_eq!(c.get_relative(&HexDirection::UpLeft), cell(2, -1));
}

#[test]
fn adjacent_directions_are_the_two_rotations() {
    assert_eq!(
        HexDirection::UpRight.get_adjacent_directions(),
        [&HexDirection::UpLeft, &HexDirection::Right]
    );
    assert_eq!(
        HexDirection::Right.get_adjacent_directions(),
        [&HexDirection::UpRight, &HexDirection::DownRight]
    );
    assert_eq!(
        HexDirection::DownRight.get_adjacent_directions(),
        [&HexDirection::Right, &HexDirection::DownLeft]
    );
    assert_eq!(
        HexDirection::DownLeft.get_adjacent_directions(),
        [&HexDirection::DownRight, &HexDirection::Left]
    );
    assert_eq!(
        HexDirection::Left.get_adjacent_directions(),
        [&HexDirection::DownLeft, &HexDirection::UpLeft]
    );
    assert_eq!(
        HexDirection::UpLeft.get_adjacent_directions(),
        [&HexDirection::Left, &HexDirection::UpRight]
    );
}

#[test]
fn gate_cells_touch_origin_and_target() {
    let origin = cell(5, 7);
    for direction in all_directions() {
        let target = origin.get_relative(&direction);
        for side in direction.get_adjacent_directions() {
            let gate = origin.get_relative(side);
            let touches_target = all_directions().iter().any(|d| gate.get_relative(d) == target);
            assert!(touches_target);
        }
    }
}

#[test]
fn all_directions_run_clockwise_from_up_right() {
    assert_eq!(
        all_directions(),
        [
            HexDirection::UpRight,
            HexDirection::Right,
            HexDirection::DownRight,
            HexDirection::DownLeft,
            HexDirection::Left,
            HexDirection::UpLeft,
        ]
    );
}

#[test]
fn new_board_is_empty() {
    let board = Board::new();
    assert!(!board.is_occupied(&cell(0, 0)));
    assert!(board.coordinates().is_empty());
    assert_eq!(board.stack_at(&cell(0, 0)), None);
    assert_eq!(board.top_at(&cell(0, 0)), None);
}

#[test]
fn board_keeps_what_is_inserted() {
    let mut board = Board::new();
    board.insert_stack(cell(2, 3), vec![4, 9]);
    board.insert_stack(cell(-1, 0), vec![5]);
    assert!(board.is_occupied(&cell(2, 3)));
    assert!(board.is_occupied(&cell(-1, 0)));
    assert!(!board.is_occupied(&cell(3, 2)));
    assert_eq!(board.stack_at(&cell(2, 3)), Some(&vec![4, 9]));
    assert_eq!(board.top_at(&cell(2, 3)), Some(9));
    assert_eq!(board.top_at(&cell(-1, 0)), Some(5));
    assert_eq!(sorted(&board.coordinates()), vec![(-1, 0), (2, 3)]);
}

#[test]
fn insert_stack_replaces_the_stack_of_a_cell() {
    let mut board = Board::new();
    board.insert_stack(cell(0, 0), vec![1]);
    board.insert_stack(cell(0, 0), vec![1, 2]);
    assert_eq!(board.stack_at(&cell(0, 0)), Some(&vec![1, 2]));
    assert_eq!(board.coordinates().len(), 1);
}

#[test]
fn without_removes_the_whole_stack_of_one_cell() {
    let mut board = board_with(&[(0, 0), (1, 0)]);
    board.insert_stack(cell(0, 1), vec![7, 8]);
    let rest = board.without(&cell(0, 1));
    assert!(!rest.is_occupied(&cell(0, 1)));
    assert_eq!(sorted(&rest.coordinates()), vec![(0, 0), (1, 0)]);
    assert_eq!(rest.stack_at(&cell(0, 0)), Some(&vec![1]));
    assert_eq!(rest.stack_at(&cell(1, 0)), Some(&vec![2]));
    assert!(board.is_occupied(&cell(0, 1)));
}

#[test]
fn without_an_empty_cell_changes_nothing() {
    let board = board_with(&[(0, 0), (1, 0)]);
    let rest = board.without(&cell(5, 5));
    assert_eq!(sorted(&rest.coordinates()), vec![(0, 0), (1, 0)]);
}

#[test]
fn reinserting_the_removed_stack_restores_the_board() {
    let mut board = board_with(&[(0, 0), (1, 0), (1, 1)]);
    board.insert_stack(cell(0, 1), vec![7, 8]);
    let removed = board.stack_at(&cell(0, 1)).unwrap().clone();
    let mut rest = board.without(&cell(0, 1));
    rest.insert_stack(cell(0, 1), removed);
    assert_eq!(sorted(&rest.coordinates()), sorted(&board.coordinates()));
    for c in board.coordinates() {
        assert_eq!(rest.stack_at(&c), board.stack_at(&c));
    }
}

#[test]
fn slide_needs_exactly_one_occupied_gate() {
    let board = board_with(&[(0, 1)]);
    let slides = board.slidable_neighbors(cell(0, 0), &vec![]);
    assert_eq!(slides, vec![cell(1, 0), cell(-1, 1)]);
}

#[test]
fn slide_is_blocked_between_two_pieces() {
    let board = board_with(&[(0, 1), (1, -1)]);
    let slides = board.slidable_neighbors(cell(0, 0), &vec![]);
    assert_eq!(slides, vec![cell(0, -1), cell(-1, 1)]);
}

#[test]
fn slide_skips_ignored_cells() {
    let board = board_with(&[(0, 1)]);
    let slides = board.slidable_neighbors(cell(0, 0), &vec![cell(1, 0)]);
    assert_eq!(slides, vec![cell(-1, 1)]);
}

#[test]
fn no_slide_without_contact() {
    let board = board_with(&[(5, 5)]);
    assert!(board.slidable_neighbors(cell(0, 0), &vec![]).is_empty());
    assert!(Board::new().slidable_neighbors(cell(0, 0), &vec![]).is_empty());
}

#[test]
fn queen_moves_one_slide() {
    let board = board_with(&[(0, 1)]);
    assert_eq!(get_moves_for_queen(&board, cell(0, 0)), vec![cell(1, 0), cell(-1, 1)]);
}

#[test]
fn ant_walks_around_a_single_piece() {
    let board = board_with(&[(0, 1)]);
    let moves = get_moves_for_ant(&board, cell(0, 0));
    assert_eq!(sorted(&moves), vec![(-1, 1), (-1, 2), (0, 2), (1, 0), (1, 1)]);
}

#[test]
fn ant_reaches_whatever_the_queen_reaches() {
    let board = board_with(&[(0, 1), (1, 1), (2, 0), (-1, 2)]);
    let queen = get_moves_for_queen(&board, cell(0, 0));
    let ant = get_moves_for_ant(&board, cell(0, 0));
    assert!(!queen.is_empty());
    for c in &queen {
        assert!(ant.contains(c));
    }
    assert!(ant.len() > queen.len());
    assert!(!ant.contains(&cell(0, 0)));
}

#[test]
fn ant_does_not_enter_a_closed_gap() {
    let board = board_with(&[(0, 1), (1, 0), (1, -1), (0, -1), (-1, 0), (-1, 1)]);
    let moves = get_moves_for_ant(&board, cell(3, 0));
    assert!(moves.is_empty());
    let board = board_with(&[(0, 1), (1, 0), (1, -1), (0, -1), (-1, 0), (-1, 1), (2, 0)]);
    let moves = get_moves_for_ant(&board, cell(3, 0));
    assert!(!moves.is_empty());
    assert!(!moves.contains(&cell(0, 0)));
}

#[test]
fn spider_makes_three_slides() {
    let board = board_with(&[(0, 1)]);
    assert_eq!(get_moves_for_spider(&board, cell(0, 0)), vec![cell(0, 2)]);
}

#[test]
fn spider_without_contact_stays() {
    let board = board_with(&[(5, 5)]);
    assert!(get_moves_for_spider(&board, cell(0, 0)).is_empty());
}

#[test]
fn spider_along_a_line_of_two() {
    let board = board_with(&[(0, 1), (0, 2)]);
    let moves = get_moves_for_spider(&board, cell(0, 0));
    assert_eq!(sorted(&moves), vec![(-1, 3), (1, 2)]);
}

#[test]
fn slide_from_all_collects_each_target_once() {
    let board = board_with(&[(0, 1)]);
    let sources = vec![cell(1, 0), cell(-1, 1)];
    let ignore = vec![cell(0, 0), cell(1, 0), cell(-1, 1)];
    let found = slide_from_all(&board, &sources, &ignore);
    assert_eq!(sorted(&found), vec![(-1, 2), (1, 1)]);
}

#[test]
fn grasshopper_jumps_over_a_run() {
    let board = board_with(&[(1, 0), (2, 0)]);
    assert_eq!(get_moves_for_grasshopper(&board, cell(0, 0)), vec![cell(3, 0)]);
}

#[test]
fn grasshopper_needs_a_piece_to_jump() {
    let board = board_with(&[(2, 0)]);
    assert!(get_moves_for_grasshopper(&board, cell(0, 0)).is_empty());
}

#[test]
fn grasshopper_jumps_in_every_direction() {
    let board = board_with(&[(0, 1), (1, 0), (1, -1), (0, -1), (-1, 0), (-1, 1), (0, 2)]);
    let moves = get_moves_for_grasshopper(&board, cell(0, 0));
    assert_eq!(
        moves,
        vec![cell(0, 3), cell(2, 0), cell(2, -2), cell(0, -2), cell(-2, 0), cell(-2, 2)]
    );
}

#[test]
fn grasshopper_never_lands_next_to_its_origin() {
    let board = board_with(&[(0, 1), (1, 0), (2, 0), (-1, 1), (-2, 2), (-3, 3)]);
    let origin = cell(0, 0);
    let moves = get_moves_for_grasshopper(&board, origin);
    assert_eq!(sorted(&moves), vec![(-4, 4), (0, 2), (3, 0)]);
    for c in &moves {
        assert!(!board.is_occupied(c));
        for direction in all_directions() {
            assert!(origin.get_relative(&direction) != *c);
        }
    }
}

#[test]
fn beetle_on_the_ground_climbs_only() {
    let board = board_with(&[(0, 1), (1, -1)]);
    assert_eq!(get_moves_for_beetle(&board, cell(0, 0), false), vec![cell(0, 1), cell(1, -1)]);
}

#[test]
fn beetle_on_the_ground_alone_cannot_move() {
    let board = Board::new();
    assert!(get_moves_for_beetle(&board, cell(0, 0), false).is_empty());
}

#[test]
fn beetle_on_a_stack_steps_anywhere() {
    let board = board_with(&[(0, 1)]);
    assert_eq!(
        get_moves_for_beetle(&board, cell(0, 0), true),
        vec![cell(0, 1), cell(1, 0), cell(1, -1), cell(0, -1), cell(-1, 0), cell(-1, 1)]
    );
}

#[test]
fn empty_board_is_connected() {
    assert!(is_connected(&Board::new()));
}

#[test]
fn single_piece_is_connected() {
    assert!(is_connected(&board_with(&[(4, -2)])));
}

#[test]
fn line_is_connected() {
    assert!(is_connected(&board_with(&[(0, 0), (1, 0), (2, 0), (2, 1), (1, 2)])));
}

#[test]
fn two_groups_are_not_connected() {
    assert!(!is_connected(&board_with(&[(0, 0), (2, 0)])));
    assert!(!is_connected(&board_with(&[(0, 0), (1, 0), (3, 0), (4, 0)])));
    assert!(!is_connected(&board_with(&[(0, 0), (1, 1)])));
}

#[test]
fn removing_a_cut_cell_disconnects() {
    let board = board_with(&[(0, 0), (1, 0), (2, 0)]);
    assert!(is_connected(&board));
    assert!(!is_connected(&board.without(&cell(1, 0))));
}

#[test]
fn removing_a_leaf_keeps_the_hive_connected() {
    let board = board_with(&[(0, 0), (1, 0), (2, 0)]);
    assert!(is_connected(&board.without(&cell(0, 0))));
    assert!(is_connected(&board.without(&cell(2, 0))));
}

#[test]
fn removing_a_cell_of_a_ring_keeps_it_connected() {
    let ring = [(0, 1), (1, 0), (1, -1), (0, -1), (-1, 0), (-1, 1)];
    let board = board_with(&ring);
    for (x, y) in ring {
        assert!(is_connected(&board.without(&cell(x, y))));
    }
}

#[test]
fn get_relative_wraps_at_the_ends_of_the_range() {
    let corner = cell(i32::MAX, i32::MIN);
    assert_eq!(corner.get_relative(&HexDirection::Right), cell(i32::MIN, i32::MIN));
    assert_eq!(corner.get_relative(&HexDirection::DownLeft), cell(i32::MAX, i32::MAX));
    assert_eq!(corner.get_relative(&HexDirection::DownRight), cell(i32::MIN, i32::MAX));
    assert_eq!(corner.get_relative(&HexDirection::UpLeft), cell(i32::MAX - 1, i32::MIN + 1));
    let other = cell(i32::MIN, i32::MAX);
    assert_eq!(other.get_relative(&HexDirection::Left), cell(i32::MAX, i32::MAX));
    assert_eq!(other.get_relative(&HexDirection::UpRight), cell(i32::MIN, i32::MIN));
    assert_eq!(other.get_relative(&HexDirection::UpLeft), cell(i32::MAX, i32::MIN));
}

#[test]
fn every_step_can_be_taken_back() {
    let cells = [cell(0, 0), cell(i32::MAX, i32::MIN), cell(i32::MIN, i32::MAX), cell(7, -3)];
    let directions = all_directions();
    for c in cells {
        for (i, direction) in directions.iter().enumerate() {
            let back = directions[(i + 3) % 6];
            assert_eq!(c.get_relative(direction).get_relative(&back), c);
        }
    }
}

#[test]
fn slides_are_found_at_the_end_of_the_range() {
    let board = board_with(&[(i32::MAX, 1)]);
    let slides = board.slidable_neighbors(cell(i32::MAX, 0), &vec![]);
    assert_eq!(slides, vec![cell(i32::MIN, 0), cell(i32::MAX - 1, 1)]);
}

#[test]
fn grasshopper_jumps_across_the_end_of_the_range() {
    let board = board_with(&[(i32::MAX, 0), (i32::MIN, 0)]);
    let moves = get_moves_for_grasshopper(&board, cell(i32::MAX - 1, 0));
    assert_eq!(moves, vec![cell(i32::MIN + 1, 0)]);
}

#[test]
fn ant_and_spider_walk_across_the_end_of_the_range() {
    let board = board_with(&[(i32::MAX, 1)]);
    let ant = get_moves_for_ant(&board, cell(i32::MAX, 0));
    assert_eq!(
        sorted(&ant),
        vec![(i32::MIN, 0), (i32::MIN, 1), (i32::MAX - 1, 1), (i32::MAX - 1, 2), (i32::MAX, 2)]
    );
    let spider = get_moves_for_spider(&board, cell(i32::MAX, 0));
    assert_eq!(spider, vec![cell(i32::MAX, 2)]);
    let near = board_with(&[(i32::MAX, 0), (i32::MIN, 0)]);
    assert!(is_connected(&near));
}
