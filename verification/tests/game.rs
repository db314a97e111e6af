use hive_engine::board::Board;
use hive_engine::data::components::{Level, PlayerInventory};
use hive_engine::data::enums::{AppEvent, AppState, GameResult, InsectType, Player};
use hive_engine::game_model::game_state::{
    create_game_state, get_possible_moves, move_piece, take_from_hand, GameState, MoveError,
};
use hive_engine::game_model::piece::Piece;
use hive_engine::game_model::validation::{
    are_pieces_well_formed, count_entries, count_held, same_cell,
};
use hive_engine::ui::status_text;
use hive_engine::game_model::win_detector::{
    has_surrounded_queen, is_cell_surrounded, result_after_move,
};
use hive_engine::hex_coordinate::HexCoordinate;
use hive_engine::rules::{get_moves_for_new_piece, touches_other_player};
use hive_engine::world_cursor::PressState;

fn cell(x: i32, y: i32) -> HexCoordinate {
    HexCoordinate::new(x, y)
}

fn sorted(cells: &Vec<HexCoordinate>) -> Vec<(i32, i32)> {
    let mut pairs: Vec<(i32, i32)> = cells.iter().map(|c| (c.x, c.y)).collect();
    pairs.sort();
    pairs
}

/// Puts the piece with the given id on the ground of the cell, as if its owner had placed it.
fn put(state: &mut GameState, id: u32, x: i32, y: i32) {
    let index = (id - 1) as usize;
    let piece = state.pieces[index];
    assert!(piece.position.is_none());
    state.pieces[index].position = Some(cell(x, y));
    let inventory = match piece.player {
        Player::Player1 => &mut state.player1_inventory,
        Player::Player2 => &mut state.player2_inventory,
    };
    let at = inventory.pieces.iter().position(|kind| *kind == piece.insect_type).unwrap();
    inventory.pieces.remove(at);
    inventory.moves_played += 1;
}

fn assert_no_two_pieces_share_a_level(state: &GameState) {
    for a in &state.pieces {
        for b in &state.pieces {
            if a.id != b.id && a.position.is_some() && a.position == b.position {
                assert!(a.level != b.level);
            }
        }
    }
}

const ANT_1: u32 = 1;
const ANT_2: u32 = 2;
const ANT_3: u32 = 3;
const QUEEN_1: u32 = 4;
const SPIDER_1: u32 = 5;
const SPIDER_1B: u32 = 6;
const BEETLE_1: u32 = 7;
const BEETLE_1B: u32 = 8;
const GRASSHOPPER_1: u32 = 9;
const ANT_4: u32 = 11;
const ANT_5: u32 = 12;
const ANT_6: u32 = 13;
const QUEEN_2: u32 = 14;
const SPIDER_2: u32 = 15;
const SPIDER_2B: u32 = 16;
const BEETLE_2: u32 = 17;
const GRASSHOPPER_2: u32 = 19;

#[test]
fn inventory_starts_with_ten_pieces() {
    let inventory = PlayerInventory::new();
    assert_eq!(
        inventory.pieces,
        vec![
            InsectType::Ant,
            InsectType::Ant,
            InsectType::Ant,
            InsectType::Queen,
            InsectType::Spider,
            InsectType::Spider,
            InsectType::Beetle,
            InsectType::Beetle,
            InsectType::Grasshopper,
            InsectType::Grasshopper,
        ]
    );
    assert_eq!(inventory.moves_played, 0);
    assert_eq!(inventory.position_of(InsectType::Queen), Some(3));
    assert_eq!(inventory.position_of(InsectType::Grasshopper), Some(8));
    assert!(inventory.holds(InsectType::Beetle));
    assert!(!inventory.must_place_queen());
    assert_eq!(inventory.placeable_pieces(), inventory.pieces);
}

#[test]
fn inventory_forces_the_queen_on_the_third_move() {
    let mut inventory = PlayerInventory::new();
    inventory.moves_played = 2;
    assert!(inventory.must_place_queen());
    assert_eq!(inventory.placeable_pieces(), vec![InsectType::Queen]);
    inventory.moves_played = 3;
    assert!(!inventory.must_place_queen());
    inventory.moves_played = 2;
    inventory.pieces.remove(3);
    assert!(!inventory.holds(InsectType::Queen));
    assert_eq!(inventory.position_of(InsectType::Queen), None);
    assert!(!inventory.must_place_queen());
    assert_eq!(inventory.placeable_pieces(), inventory.pieces);
}

#[test]
fn take_from_hand_removes_the_first_of_a_kind() {
    let hand = vec![InsectType::Ant, InsectType::Beetle, InsectType::Ant, InsectType::Beetle];
    assert_eq!(
        take_from_hand(&hand, InsectType::Beetle),
        vec![InsectType::Ant, InsectType::Ant, InsectType::Beetle]
    );
}

#[test]
fn default_kind_is_the_ant() {
    assert_eq!(InsectType::default(), InsectType::Ant);
    assert_eq!(AppState::default(), AppState::Init);
    assert_eq!(PressState::default(), PressState::Released);
}

#[test]
fn players_oppose_each_other() {
    assert_eq!(Player::Player1.other(), Player::Player2);
    assert_eq!(Player::Player2.other(), Player::Player1);
}

#[test]
fn new_game_has_all_pieces_in_hand() {
    let state = create_game_state();
    assert_eq!(state.pieces.len(), 20);
    for (i, piece) in state.pieces.iter().enumerate() {
        assert_eq!(piece.id as usize, i + 1);
        assert_eq!(piece.position, None);
        assert_eq!(piece.level, Level(0));
        assert_eq!(piece.resting_on, None);
        assert!(!piece.covered);
        let owner = if i < 10 { Player::Player1 } else { Player::Player2 };
        assert_eq!(piece.player, owner);
        assert_eq!(piece.insect_type, PlayerInventory::new().pieces[i % 10]);
    }
    assert_eq!(state.current_player_turn, Player::Player1);
    assert_eq!(state.current_result(), None);
    assert_eq!(state.inventory(Player::Player1).pieces, PlayerInventory::new().pieces);
    assert_eq!(state.inventory(Player::Player2).pieces, PlayerInventory::new().pieces);
    assert_eq!(state.inventory(Player::Player2).moves_played, 0);
    assert!(state.board().coordinates().is_empty());
}

#[test]
fn first_piece_goes_to_the_origin() {
    let state = create_game_state();
    assert_eq!(state.legal_destinations(ANT_1), vec![cell(0, 0)]);
    assert_eq!(state.legal_new_piece_cells(InsectType::Ant), vec![cell(0, 0)]);
    assert_eq!(state.check_move(ANT_1, cell(0, 0)), None);
    assert_eq!(state.check_move(ANT_1, cell(1, 0)), Some(MoveError::IllegalDestination));
    assert_eq!(state.apply_move(ANT_1, cell(1, 0)).unwrap_err(), MoveError::IllegalDestination);
    let next = state.apply_move(ANT_1, cell(0, 0)).unwrap();
    assert_eq!(next.pieces[0].position, Some(cell(0, 0)));
    assert_eq!(next.pieces[0].level, Level(0));
    assert_eq!(next.current_player_turn, Player::Player2);
    assert_eq!(next.current_result(), None);
    assert_eq!(next.inventory(Player::Player1).moves_played, 1);
    assert_eq!(next.inventory(Player::Player2).moves_played, 0);
    assert_eq!(next.inventory(Player::Player1).pieces.len(), 9);
    assert_eq!(
        next.inventory(Player::Player1).pieces,
        vec![
            InsectType::Ant,
            InsectType::Ant,
            InsectType::Queen,
            InsectType::Spider,
            InsectType::Spider,
            InsectType::Beetle,
            InsectType::Beetle,
            InsectType::Grasshopper,
            InsectType::Grasshopper,
        ]
    );
    assert_eq!(state.pieces[0].position, None);
}

#[test]
fn all_moves_of_a_new_game_lead_to_the_origin() {
    let state = create_game_state();
    let moves = get_possible_moves(&state);
    assert_eq!(moves.len(), 10);
    for (i, m) in moves.iter().enumerate() {
        assert_eq!(m.piece_id as usize, i + 1);
        assert_eq!(m.to, cell(0, 0));
    }
}

#[test]
fn second_player_may_touch_the_first_piece() {
    let state = create_game_state().apply_move(ANT_1, cell(0, 0)).unwrap();
    let cells = state.legal_destinations(ANT_4);
    assert_eq!(sorted(&cells), vec![(-1, 0), (-1, 1), (0, -1), (0, 1), (1, -1), (1, 0)]);
    assert_eq!(state.legal_destinations(ANT_1), vec![]);
}

#[test]
fn later_pieces_may_not_touch_the_opponent() {
    let state = create_game_state()
        .apply_move(ANT_1, cell(0, 0))
        .unwrap()
        .apply_move(ANT_4, cell(0, 1))
        .unwrap();
    assert_eq!(state.current_player_turn, Player::Player1);
    let cells = state.legal_new_piece_cells(InsectType::Spider);
    assert_eq!(sorted(&cells), vec![(-1, 0), (0, -1), (1, -1)]);
    assert_eq!(sorted(&state.placement_destinations()), vec![(-1, 0), (0, -1), (1, -1)]);
    assert_eq!(
        state.apply_move(SPIDER_1, cell(1, 0)).unwrap_err(),
        MoveError::IllegalDestination
    );
}

#[test]
fn placement_cells_follow_the_colour_of_the_top_piece() {
    let mut state = create_game_state();
    put(&mut state, ANT_1, 0, 0);
    put(&mut state, ANT_4, 0, 1);
    let board = state.board();
    assert!(touches_other_player(&state.pieces, &board, cell(1, 0), Player::Player1));
    assert!(!touches_other_player(&state.pieces, &board, cell(1, -1), Player::Player1));
    assert!(touches_other_player(&state.pieces, &board, cell(1, -1), Player::Player2));
    let open = get_moves_for_new_piece(&state.pieces, &board, Player::Player1, true);
    assert_eq!(
        sorted(&open),
        vec![(-1, 0), (-1, 1), (-1, 2), (0, -1), (0, 2), (1, -1), (1, 0), (1, 1)]
    );
    let own = get_moves_for_new_piece(&state.pieces, &board, Player::Player2, false);
    assert_eq!(sorted(&own), vec![(-1, 2), (0, 2), (1, 1)]);
}

#[test]
fn queen_is_forced_on_the_third_move() {
    let state = create_game_state()
        .apply_move(ANT_1, cell(0, 0))
        .unwrap()
        .apply_move(ANT_4, cell(0, 1))
        .unwrap()
        .apply_move(ANT_2, cell(0, -1))
        .unwrap()
        .apply_move(ANT_5, cell(0, 2))
        .unwrap();
    assert_eq!(state.current_player_turn, Player::Player1);
    assert_eq!(state.inventory(Player::Player1).moves_played, 2);
    for kind in [InsectType::Ant, InsectType::Spider, InsectType::Grasshopper, InsectType::Beetle] {
        assert!(state.legal_new_piece_cells(kind).is_empty());
    }
    let queen_cells = state.legal_new_piece_cells(InsectType::Queen);
    assert_eq!(sorted(&queen_cells), vec![(-1, -1), (-1, 0), (0, -2), (1, -2), (1, -1)]);
    assert!(state.legal_destinations(ANT_3).is_empty());
    assert_eq!(sorted(&state.legal_destinations(QUEEN_1)), sorted(&queen_cells));
    assert_eq!(
        state.apply_move(ANT_3, cell(0, -2)).unwrap_err(),
        MoveError::WrongPieceForForcedQueenRule
    );
    assert!(!state.legal_destinations(ANT_2).is_empty());
    let next = state.apply_move(QUEEN_1, cell(0, -2)).unwrap();
    assert_eq!(next.inventory(Player::Player1).moves_played, 3);
    assert!(!next.inventory(Player::Player1).holds(InsectType::Queen));
}

#[test]
fn moves_of_the_forced_turn_list_the_queen_only_among_new_pieces() {
    let state = create_game_state()
        .apply_move(ANT_1, cell(0, 0))
        .unwrap()
        .apply_move(ANT_4, cell(0, 1))
        .unwrap()
        .apply_move(ANT_2, cell(0, -1))
        .unwrap()
        .apply_move(ANT_5, cell(0, 2))
        .unwrap();
    let moves = get_possible_moves(&state);
    assert!(!moves.is_empty());
    for m in &moves {
        let piece = state.pieces[(m.piece_id - 1) as usize];
        assert_eq!(piece.player, Player::Player1);
        assert!(piece.position.is_some() || piece.insect_type == InsectType::Queen);
        assert!(state.check_move(m.piece_id, m.to).is_none());
    }
    assert!(moves.iter().any(|m| m.piece_id == QUEEN_1));
    assert!(moves.iter().any(|m| m.piece_id == ANT_2));
    assert!(!moves.iter().any(|m| m.piece_id == ANT_1));
}

#[test]
fn pieces_of_the_other_player_are_refused() {
    let state = create_game_state();
    assert_eq!(
        state.apply_move(ANT_4, cell(0, 0)).unwrap_err(),
        MoveError::NotCurrentPlayersPiece
    );
    assert_eq!(state.apply_move(0, cell(0, 0)).unwrap_err(), MoveError::NotCurrentPlayersPiece);
    assert_eq!(state.apply_move(21, cell(0, 0)).unwrap_err(), MoveError::NotCurrentPlayersPiece);
    assert!(state.legal_destinations(ANT_4).is_empty());
    assert!(state.legal_destinations(0).is_empty());
    assert!(state.legal_destinations(21).is_empty());
}

#[test]
fn piece_that_holds_the_hive_together_stays() {
    let mut state = create_game_state();
    put(&mut state, ANT_1, 0, 0);
    put(&mut state, ANT_4, 1, 0);
    put(&mut state, ANT_2, -1, 0);
    assert!(state.legal_destinations(ANT_1).is_empty());
    assert!(state.relocation_destinations(ANT_1).is_empty());
    assert_eq!(state.apply_move(ANT_1, cell(0, 1)).unwrap_err(), MoveError::IllegalDestination);
    assert!(!state.legal_destinations(ANT_2).is_empty());
}

#[test]
fn ant_relocates_along_the_hive() {
    let mut state = create_game_state();
    put(&mut state, ANT_1, 0, 0);
    put(&mut state, ANT_4, 0, 1);
    let cells = state.legal_destinations(ANT_1);
    assert_eq!(sorted(&cells), vec![(-1, 1), (-1, 2), (0, 2), (1, 0), (1, 1)]);
    let next = state.apply_move(ANT_1, cell(0, 2)).unwrap();
    assert_eq!(next.pieces[0].position, Some(cell(0, 2)));
    assert_eq!(next.pieces[0].level, Level(0));
    assert_eq!(next.inventory(Player::Player1).moves_played, 2);
    assert_eq!(next.inventory(Player::Player1).pieces.len(), 9);
    assert_eq!(next.current_player_turn, Player::Player2);
    assert_eq!(sorted(&next.board().coordinates()), vec![(0, 1), (0, 2)]);
}

#[test]
fn each_kind_moves_by_its_own_rule() {
    let mut state = create_game_state();
    put(&mut state, QUEEN_1, 0, 0);
    put(&mut state, ANT_4, 0, 1);
    assert_eq!(sorted(&state.legal_destinations(QUEEN_1)), vec![(-1, 1), (1, 0)]);
    let mut state = create_game_state();
    put(&mut state, SPIDER_1, 0, 0);
    put(&mut state, ANT_4, 0, 1);
    assert_eq!(sorted(&state.legal_destinations(SPIDER_1)), vec![(0, 2)]);
    let mut state = create_game_state();
    put(&mut state, GRASSHOPPER_1, 0, 0);
    put(&mut state, ANT_4, 0, 1);
    assert_eq!(sorted(&state.legal_destinations(GRASSHOPPER_1)), vec![(0, 2)]);
    let mut state = create_game_state();
    put(&mut state, BEETLE_1, 0, 0);
    put(&mut state, ANT_4, 0, 1);
    assert_eq!(sorted(&state.legal_destinations(BEETLE_1)), vec![(0, 1)]);
}

#[test]
fn lone_beetle_on_the_ground_cannot_move() {
    let state = create_game_state().apply_move(BEETLE_1, cell(0, 0)).unwrap();
    assert!(state.relocation_destinations(BEETLE_1).is_empty());
}

#[test]
fn beetle_climbs_and_steps_down() {
    let state = create_game_state()
        .apply_move(BEETLE_1, cell(0, 0))
        .unwrap()
        .apply_move(ANT_4, cell(0, 1))
        .unwrap();
    assert_eq!(state.legal_destinations(BEETLE_1), vec![cell(0, 1)]);
    let climbed = state.apply_move(BEETLE_1, cell(0, 1)).unwrap();
    let beetle = climbed.pieces[(BEETLE_1 - 1) as usize];
    let ant = climbed.pieces[(ANT_4 - 1) as usize];
    assert_eq!(beetle.position, Some(cell(0, 1)));
    assert_eq!(beetle.level, Level(1));
    assert_eq!(beetle.resting_on, Some(ANT_4));
    assert!(!beetle.covered);
    assert!(ant.covered);
    assert_eq!(ant.level, Level(0));
    assert_eq!(climbed.board().stack_at(&cell(0, 1)), Some(&vec![ANT_4, BEETLE_1]));
    assert_eq!(climbed.board().top_at(&cell(0, 1)), Some(BEETLE_1));
    assert_eq!(sorted(&climbed.board().coordinates()), vec![(0, 1)]);
    assert_no_two_pieces_share_a_level(&climbed);
    let around = climbed.relocation_destinations(BEETLE_1);
    assert_eq!(sorted(&around), vec![(-1, 1), (-1, 2), (0, 0), (0, 2), (1, 0), (1, 1)]);
    assert_eq!(climbed.current_player_turn, Player::Player2);
    assert_eq!(
        climbed.apply_move(ANT_4, cell(0, 2)).unwrap_err(),
        MoveError::PieceNotSelectable
    );
    assert!(climbed.legal_destinations(ANT_4).is_empty());
    assert!(climbed.placement_destinations().is_empty());
    let mut back = climbed;
    back.current_player_turn = Player::Player1;
    let down = back.apply_move(BEETLE_1, cell(1, 0)).unwrap();
    let beetle = down.pieces[(BEETLE_1 - 1) as usize];
    let ant = down.pieces[(ANT_4 - 1) as usize];
    assert_eq!(beetle.position, Some(cell(1, 0)));
    assert_eq!(beetle.level, Level(0));
    assert_eq!(beetle.resting_on, None);
    assert!(!ant.covered);
    assert_eq!(down.board().stack_at(&cell(0, 1)), Some(&vec![ANT_4]));
    assert_no_two_pieces_share_a_level(&down);
}

#[test]
fn beetle_moves_from_stack_to_stack() {
    let mut state = create_game_state();
    put(&mut state, BEETLE_1, 0, 0);
    put(&mut state, ANT_4, 0, 1);
    put(&mut state, ANT_5, 1, 0);
    let state = state.apply_move(BEETLE_1, cell(0, 1)).unwrap();
    let mut state = state;
    state.current_player_turn = Player::Player1;
    let next = state.apply_move(BEETLE_1, cell(1, 0)).unwrap();
    let beetle = next.pieces[(BEETLE_1 - 1) as usize];
    assert_eq!(beetle.level, Level(1));
    assert_eq!(beetle.resting_on, Some(ANT_5));
    assert!(!next.pieces[(ANT_4 - 1) as usize].covered);
    assert!(next.pieces[(ANT_5 - 1) as usize].covered);
    assert_eq!(next.board().stack_at(&cell(1, 0)), Some(&vec![ANT_5, BEETLE_1]));
    assert_eq!(next.board().stack_at(&cell(0, 1)), Some(&vec![ANT_4]));
    assert_no_two_pieces_share_a_level(&next);
}

#[test]
fn move_piece_gives_the_pieces_after_a_move() {
    let mut state = create_game_state();
    put(&mut state, BEETLE_1, 0, 0);
    put(&mut state, ANT_4, 0, 1);
    let board = state.board();
    let moved = move_piece(&state.pieces, &board, (BEETLE_1 - 1) as usize, cell(0, 1));
    assert_eq!(moved.len(), 20);
    for (before, after) in state.pieces.iter().zip(moved.iter()) {
        if before.id == BEETLE_1 {
            assert_eq!(
                *after,
                Piece {
                    position: Some(cell(0, 1)),
                    level: Level(1),
                    resting_on: Some(ANT_4),
                    ..*before
                }
            );
        } else if before.id == ANT_4 {
            assert_eq!(*after, Piece { covered: true, ..*before });
        } else {
            assert_eq!(after, before);
        }
    }
}

#[test]
fn surrounding_the_queen_wins() {
    let mut state = create_game_state();
    put(&mut state, QUEEN_1, 0, 0);
    put(&mut state, ANT_4, 0, 1);
    put(&mut state, ANT_5, 1, 0);
    put(&mut state, ANT_6, 1, -1);
    put(&mut state, SPIDER_2, 0, -1);
    put(&mut state, SPIDER_2B, -1, 0);
    put(&mut state, GRASSHOPPER_2, 1, 1);
    state.current_player_turn = Player::Player2;
    assert_eq!(state.legal_destinations(GRASSHOPPER_2), vec![cell(1, -2), cell(-1, 1)]);
    let next = state.apply_move(GRASSHOPPER_2, cell(-1, 1)).unwrap();
    assert_eq!(next.current_result(), Some(GameResult::PlayerWon(Player::Player2)));
    assert_eq!(next.current_player_turn, Player::Player2);
    assert_eq!(
        next.apply_move(ANT_4, cell(0, 2)).unwrap_err(),
        MoveError::GameAlreadyOver
    );
    assert_eq!(
        next.apply_move(QUEEN_1, cell(5, 5)).unwrap_err(),
        MoveError::GameAlreadyOver
    );
    assert!(next.legal_destinations(ANT_4).is_empty());
    assert!(next.legal_new_piece_cells(InsectType::Queen).is_empty());
    assert!(get_possible_moves(&next).is_empty());
}

#[test]
fn surrounding_both_queens_at_once_is_a_draw() {
    let mut state = create_game_state();
    put(&mut state, QUEEN_1, 0, 0);
    put(&mut state, QUEEN_2, 1, 0);
    put(&mut state, ANT_1, 1, -1);
    put(&mut state, ANT_2, 0, -1);
    put(&mut state, ANT_3, -1, 0);
    put(&mut state, SPIDER_1, -1, 1);
    put(&mut state, SPIDER_1B, 1, 1);
    put(&mut state, BEETLE_1, 2, 0);
    put(&mut state, BEETLE_1B, 2, -1);
    put(&mut state, ANT_4, 0, 2);
    put(&mut state, GRASSHOPPER_2, 0, 3);
    state.current_player_turn = Player::Player2;
    assert!(state.legal_destinations(GRASSHOPPER_2).contains(&cell(0, 1)));
    let next = state.apply_move(GRASSHOPPER_2, cell(0, 1)).unwrap();
    assert_eq!(next.current_result(), Some(GameResult::Draw));
}

#[test]
fn game_goes_on_while_the_other_queen_is_free() {
    let mut state = create_game_state();
    put(&mut state, QUEEN_1, 0, 0);
    put(&mut state, ANT_4, 0, 1);
    put(&mut state, ANT_5, 1, 0);
    put(&mut state, ANT_6, 1, -1);
    put(&mut state, SPIDER_2, 0, -1);
    put(&mut state, SPIDER_2B, -1, 0);
    put(&mut state, GRASSHOPPER_1, 1, 1);
    state.current_player_turn = Player::Player1;
    let next = state.apply_move(GRASSHOPPER_1, cell(-1, 1)).unwrap();
    assert_eq!(next.current_result(), None);
    assert_eq!(next.current_player_turn, Player::Player2);
}

#[test]
fn win_detector_reads_the_board() {
    let mut state = create_game_state();
    put(&mut state, QUEEN_1, 0, 0);
    put(&mut state, ANT_4, 0, 1);
    put(&mut state, ANT_5, 1, 0);
    put(&mut state, ANT_6, 1, -1);
    put(&mut state, SPIDER_2, 0, -1);
    put(&mut state, SPIDER_2B, -1, 0);
    let board = state.board();
    assert!(!is_cell_surrounded(&board, cell(0, 0)));
    assert!(!has_surrounded_queen(&state.pieces, &board, Player::Player1));
    assert_eq!(result_after_move(&state.pieces, &board, Player::Player2), None);
    put(&mut state, BEETLE_2, -1, 1);
    let board = state.board();
    assert!(is_cell_surrounded(&board, cell(0, 0)));
    assert!(!is_cell_surrounded(&board, cell(0, 1)));
    assert!(has_surrounded_queen(&state.pieces, &board, Player::Player1));
    assert!(!has_surrounded_queen(&state.pieces, &board, Player::Player2));
    assert_eq!(
        result_after_move(&state.pieces, &board, Player::Player2),
        Some(GameResult::PlayerWon(Player::Player2))
    );
    assert_eq!(result_after_move(&state.pieces, &board, Player::Player1), None);
}

#[test]
fn board_of_a_game_lists_every_placed_piece() {
    let mut state = create_game_state();
    put(&mut state, ANT_1, 0, 0);
    put(&mut state, ANT_4, 0, 1);
    put(&mut state, QUEEN_2, 0, 2);
    let board = Board::from_pieces(&state.pieces);
    assert_eq!(sorted(&board.coordinates()), vec![(0, 0), (0, 1), (0, 2)]);
    assert_eq!(board.top_at(&cell(0, 0)), Some(ANT_1));
    assert_eq!(board.top_at(&cell(0, 1)), Some(ANT_4));
    assert_eq!(board.top_at(&cell(0, 2)), Some(QUEEN_2));
}

#[test]
fn no_two_pieces_share_a_cell_and_level_during_play() {
    let mut state = create_game_state();
    let script: [(u32, (i32, i32)); 8] = [
        (QUEEN_1, (0, 0)),
        (ANT_4, (0, 1)),
        (BEETLE_1, (0, -1)),
        (QUEEN_2, (0, 2)),
        (BEETLE_1, (0, 0)),
        (ANT_5, (0, 3)),
        (BEETLE_1, (0, 1)),
        (ANT_5, (1, -1)),
    ];
    for (id, (x, y)) in script {
        state = state.apply_move(id, cell(x, y)).unwrap();
        assert_no_two_pieces_share_a_level(&state);
        assert!(hive_engine::hive::is_connected(&state.board()));
    }
    assert_eq!(state.board().stack_at(&cell(0, 1)), Some(&vec![ANT_4, BEETLE_1]));
    assert_eq!(state.board().stack_at(&cell(0, 0)), Some(&vec![QUEEN_1]));
    assert_eq!(state.inventory(Player::Player1).moves_played, 4);
    assert_eq!(state.inventory(Player::Player2).moves_played, 4);
}

#[test]
fn press_state_follows_the_button() {
    assert_eq!(PressState::Released.next(false, false), PressState::Released);
    assert_eq!(PressState::Released.next(true, true), PressState::JustPressed);
    assert_eq!(PressState::JustPressed.next(false, true), PressState::Pressed);
    assert_eq!(PressState::JustPressed.next(false, false), PressState::JustReleased);
    assert_eq!(PressState::Pressed.next(false, true), PressState::Pressed);
    assert_eq!(PressState::Pressed.next(false, false), PressState::JustReleased);
    assert_eq!(PressState::JustReleased.next(true, true), PressState::Released);
}

#[test]
fn app_state_follows_the_turn() {
    assert_eq!(AppState::Init.advance(AppEvent::Started), AppState::Idle);
    assert_eq!(AppState::Idle.advance(AppEvent::PiecePicked), AppState::MovingTile);
    assert_eq!(AppState::MovingTile.advance(AppEvent::MoveAbandoned), AppState::Idle);
    assert_eq!(AppState::MovingTile.advance(AppEvent::MoveMade), AppState::MoveFinished);
    assert_eq!(AppState::MoveFinished.advance(AppEvent::Resolved(None)), AppState::Idle);
    assert_eq!(
        AppState::MoveFinished.advance(AppEvent::Resolved(Some(GameResult::Draw))),
        AppState::PlayerWon
    );
    assert_eq!(AppState::PlayerWon.advance(AppEvent::PiecePicked), AppState::PlayerWon);
    assert_eq!(AppState::Idle.advance(AppEvent::MoveMade), AppState::Idle);
}

#[test]
fn states_of_a_game_are_well_formed() {
    let mut state = create_game_state();
    assert!(state.is_well_formed());
    let script: [(u32, (i32, i32)); 6] = [
        (QUEEN_1, (0, 0)),
        (ANT_4, (0, 1)),
        (BEETLE_1, (0, -1)),
        (QUEEN_2, (0, 2)),
        (BEETLE_1, (0, 0)),
        (ANT_5, (0, 3)),
    ];
    for (id, (x, y)) in script {
        state = state.apply_move(id, cell(x, y)).unwrap();
        assert!(state.is_well_formed());
    }
}

#[test]
fn states_set_up_by_hand_are_well_formed() {
    let mut state = create_game_state();
    put(&mut state, QUEEN_1, 0, 0);
    put(&mut state, ANT_4, 0, 1);
    put(&mut state, GRASSHOPPER_2, 1, 1);
    assert!(state.is_well_formed());
}

#[test]
fn two_pieces_on_one_level_are_not_well_formed() {
    let mut state = create_game_state();
    put(&mut state, QUEEN_1, 0, 0);
    put(&mut state, ANT_4, 0, 0);
    assert!(!are_pieces_well_formed(&state.pieces));
    assert!(!state.is_well_formed());
}

#[test]
fn a_split_hive_is_not_well_formed() {
    let mut state = create_game_state();
    put(&mut state, QUEEN_1, 0, 0);
    put(&mut state, ANT_4, 0, 2);
    assert!(are_pieces_well_formed(&state.pieces));
    assert!(!state.is_well_formed());
}

#[test]
fn an_inventory_out_of_step_is_not_well_formed() {
    let mut state = create_game_state();
    state.player1_inventory.pieces.remove(0);
    assert!(!state.is_well_formed());
    let mut state = create_game_state();
    state.player2_inventory.pieces.push(InsectType::Queen);
    assert!(!state.is_well_formed());
    let mut state = create_game_state();
    state.pieces[0].position = Some(cell(0, 0));
    assert!(are_pieces_well_formed(&state.pieces));
    assert!(!state.is_well_formed());
}

#[test]
fn broken_stacks_are_not_well_formed() {
    let mut state = create_game_state();
    put(&mut state, BEETLE_1, 0, 0);
    put(&mut state, ANT_4, 0, 1);
    let climbed = state.apply_move(BEETLE_1, cell(0, 1)).unwrap();
    assert!(are_pieces_well_formed(&climbed.pieces));
    let mut pieces = climbed.pieces.clone();
    pieces[(ANT_4 - 1) as usize].covered = false;
    assert!(!are_pieces_well_formed(&pieces));
    let mut pieces = climbed.pieces.clone();
    pieces[(BEETLE_1 - 1) as usize].resting_on = None;
    assert!(!are_pieces_well_formed(&pieces));
    let mut pieces = climbed.pieces.clone();
    pieces[(BEETLE_1 - 1) as usize].level = Level(2);
    assert!(!are_pieces_well_formed(&pieces));
    let mut pieces = climbed.pieces.clone();
    pieces[(BEETLE_1 - 1) as usize].insect_type = InsectType::Ant;
    assert!(!are_pieces_well_formed(&pieces));
    let mut pieces = climbed.pieces.clone();
    pieces[(ANT_5 - 1) as usize].covered = true;
    assert!(!are_pieces_well_formed(&pieces));
    let mut pieces = climbed.pieces.clone();
    pieces[0].id = 5;
    assert!(!are_pieces_well_formed(&pieces));
    let mut pieces = climbed.pieces.clone();
    pieces[0].level = Level(1);
    assert!(!are_pieces_well_formed(&pieces));
}

#[test]
fn hands_are_counted_by_owner_and_kind() {
    let mut state = create_game_state();
    assert_eq!(count_held(&state.pieces, Player::Player1, InsectType::Ant), 3);
    assert_eq!(count_held(&state.pieces, Player::Player2, InsectType::Queen), 1);
    assert_eq!(count_entries(&state.player1_inventory.pieces, InsectType::Spider), 2);
    put(&mut state, ANT_1, 0, 0);
    assert_eq!(count_held(&state.pieces, Player::Player1, InsectType::Ant), 2);
    assert_eq!(count_held(&state.pieces, Player::Player2, InsectType::Ant), 3);
    assert_eq!(count_entries(&state.player1_inventory.pieces, InsectType::Ant), 2);
    assert_eq!(count_entries(&Vec::new(), InsectType::Ant), 0);
}

#[test]
fn cells_compare_by_value() {
    assert!(same_cell(None, None));
    assert!(same_cell(Some(cell(1, 2)), Some(cell(1, 2))));
    assert!(!same_cell(Some(cell(1, 2)), Some(cell(2, 1))));
    assert!(!same_cell(Some(cell(1, 2)), None));
    assert_eq!(HexCoordinate::default(), cell(0, 0));
}

#[test]
fn status_text_names_the_player_or_the_result() {
    assert_eq!(status_text(Player::Player1, None), "Player1");
    assert_eq!(status_text(Player::Player2, None), "Player2");
    assert_eq!(status_text(Player::Player1, Some(GameResult::Draw)), "Draw!");
    assert_eq!(
        status_text(Player::Player2, Some(GameResult::PlayerWon(Player::Player1))),
        "Player1 won!!"
    );
    assert_eq!(
        status_text(Player::Player1, Some(GameResult::PlayerWon(Player::Player2))),
        "Player2 won!!"
    );
}

#[test]
fn new_piece_on_an_empty_board_goes_to_the_origin() {
    let state = create_game_state();
    let board = Board::new();
    for player in [Player::Player1, Player::Player2] {
        for may_touch in [true, false] {
            assert_eq!(
                get_moves_for_new_piece(&state.pieces, &board, player, may_touch),
                vec![cell(0, 0)]
            );
        }
    }
    assert!(!state.has_placed(Player::Player1));
    assert_eq!(state.placement_destinations(), vec![cell(0, 0)]);
}

#[test]
fn has_placed_tells_the_players_apart() {
    let mut state = create_game_state();
    put(&mut state, ANT_1, 0, 0);
    assert!(state.has_placed(Player::Player1));
    assert!(!state.has_placed(Player::Player2));
    put(&mut state, ANT_4, 0, 1);
    assert!(state.has_placed(Player::Player2));
}

#[test]
fn possible_moves_are_listed_once_and_by_piece() {
    let mut state = create_game_state();
    put(&mut state, QUEEN_1, 0, 0);
    put(&mut state, ANT_4, 0, 1);
    put(&mut state, ANT_1, 0, -1);
    put(&mut state, QUEEN_2, 0, 2);
    let moves = get_possible_moves(&state);
    let mut expected = 0;
    for id in 1..=20u32 {
        expected += state.legal_destinations(id).len();
    }
    assert_eq!(moves.len(), expected);
    assert!(expected > 0);
    for (a, first) in moves.iter().enumerate() {
        for (b, second) in moves.iter().enumerate() {
            if a < b {
                assert!(first != second);
                assert!(first.piece_id <= second.piece_id);
            }
        }
    }
}
