use crate::board::{holds_cell, lemma_slides_among_distinct, Board};
use crate::data::components::{starting_pieces, Level, PlayerInventory};
use crate::data::enums::{GameResult, InsectType, Player};
use crate::game_model::hands::{
    count_in_hand, count_kind, is_first_of, lemma_count_in_hand_after_placing,
    lemma_count_in_hand_positive, lemma_count_in_hand_push, lemma_count_in_hand_unchanged,
    lemma_count_kind_positive, lemma_count_kind_push, lemma_count_kind_remove,
    lemma_first_exists, lemma_first_is_unique, without_first,
};
use crate::game_model::piece::{
    apart, board_of, covered_well, lemma_one_piece_per_level, lemma_stack_top, occupied_cells,
    pieces_wf, rests_well, Piece,
};
use crate::game_model::relocation::{
    lemma_move_keeps_pieces_wf, lemma_occupied_after_move, lemma_relocation_is_sound, lemma_relocation_keeps_one_hive, lemma_stack_leaves_room, lifted,
    pieces_after, relocation_cells,
};
use crate::game_model::win_detector::{outcome, result_after_move};
use crate::hex_coordinate::HexCoordinate;
use crate::hive::{
    is_connected, is_one_hive, lemma_one_hive_with_neighbor, lemma_single_cell_is_one_hive,
};
use crate::rules::{
    board_is_empty, get_moves_for_ant, get_moves_for_beetle, get_moves_for_grasshopper,
    get_moves_for_new_piece, get_moves_for_queen, get_moves_for_spider, has_piece_on_board,
    lemma_beetle_steps_distinct, lemma_jumps_among_distinct, placement_cells,
};
use vstd::prelude::*;

verus! {

/// A move: the piece that moves and the cell it moves to.
#[derive(Clone, Copy, Debug, PartialEq, Eq)]
pub struct Move {
    pub piece_id: u32,
    pub to: HexCoordinate,
}

/// The reasons for which a move is turned down.
#[derive(Clone, Copy, Debug, PartialEq, Eq, Structural)]
pub enum MoveError {
    /// The piece does not belong to the player whose turn it is, or there is no such piece.
    NotCurrentPlayersPiece,
    /// Another piece rests on the piece.
    PieceNotSelectable,
    /// The piece may not move to the cell.
    IllegalDestination,
    /// The game has ended.
    GameAlreadyOver,
    /// The player has to place the queen now.
    WrongPieceForForcedQueenRule,
}

/// A game: the pieces in the players' hands and on the board, whose turn it is, and how
/// the game ended once it has.
#[derive(Debug)]
pub struct GameState {
    pub pieces: Vec<Piece>,
    pub player1_inventory: PlayerInventory,
    pub player2_inventory: PlayerInventory,
    pub current_player_turn: Player,
    pub result: Option<GameResult>,
}

/// The piece with which a player starts at the given place of the starting inventory.
pub open spec fn starting_piece(player: Player, place: int) -> Piece {
    Piece {
        id: (match player {
            Player::Player1 => place + 1,
            Player::Player2 => place + 11,
        }) as u32,
        insect_type: starting_pieces()[place],
        player,
        position: None,
        level: Level(0),
        resting_on: None,
        covered: false,
    }
}

/// The pieces of a new game: those of the first player, then those of the second, each in
/// the order of the starting inventory.
pub open spec fn starting_lineup() -> Seq<Piece> {
    Seq::new(
        20,
        |i: int|
            if i < 10 {
                starting_piece(Player::Player1, i)
            } else {
                starting_piece(Player::Player2, i - 10)
            },
    )
}

impl GameState {
    /// The inventory of the given player.
    pub open spec fn inventory_of(self, player: Player) -> PlayerInventory {
        match player {
            Player::Player1 => self.player1_inventory,
            Player::Player2 => self.player2_inventory,
        }
    }

    /// The pieces are well formed, the occupied cells are one hive, and each inventory
    /// holds of every kind as many entries as its player has pieces of that kind in hand.
    pub open spec fn wf(self) -> bool {
        &&& pieces_wf(self.pieces@)
        &&& is_one_hive(occupied_cells(self.pieces@))
        &&& forall|player: Player, kind: InsectType|
            #[trigger] count_in_hand(self.pieces@, player, kind) == count_kind(
                self.inventory_of(player).pieces@,
                kind,
            )
    }

    /// `piece_id` is the id of a piece of the player whose turn it is.
    pub open spec fn is_own_piece(self, piece_id: u32) -> bool {
        &&& 1 <= piece_id <= self.pieces@.len()
        &&& self.pieces@[piece_id - 1].player == self.current_player_turn
    }

    /// The piece is in hand, and its owner has to place the queen now, which it is not.
    pub open spec fn is_held_back(self, piece_id: u32) -> bool {
        &&& self.pieces@[piece_id - 1].position is None
        &&& self.inventory_of(self.current_player_turn).queen_is_forced()
        &&& self.pieces@[piece_id - 1].insect_type != InsectType::Queen
    }

    /// The cells to which the piece may move or on which it may be placed now: none once
    /// the game has ended, none for a piece of the player whose turn it is not, none for a
    /// piece in hand while another one, the queen, has to be placed.
    pub open spec fn legal_cells(self, piece_id: u32) -> Set<HexCoordinate> {
        if self.result is Some || !self.is_own_piece(piece_id) || self.is_held_back(piece_id) {
            Set::empty()
        } else if self.pieces@[piece_id - 1].position is None {
            placement_cells(self.pieces@, self.current_player_turn)
        } else {
            relocation_cells(self.pieces@, piece_id - 1)
        }
    }

    /// The cells on which the player whose turn it is may place a piece of the given kind
    /// now: none once the game has ended, none where the player holds no such piece, none
    /// for another kind while the queen has to be placed.
    pub open spec fn new_piece_cells(self, insect_type: InsectType) -> Set<HexCoordinate> {
        let inventory = self.inventory_of(self.current_player_turn);
        if self.result is Some || !inventory.pieces@.contains(insect_type) || (
        inventory.queen_is_forced() && insect_type != InsectType::Queen) {
            Set::empty()
        } else {
            placement_cells(self.pieces@, self.current_player_turn)
        }
    }

    /// The reason for which the move of the piece to the cell is turned down, if it is: the
    /// first that applies of a game that has ended, a piece that is not of the player whose
    /// turn it is, a piece on the board that is covered, a piece in hand while another one,
    /// the queen, has to be placed, and a cell that is not among the legal ones.
    pub open spec fn rejection(self, piece_id: u32, destination: HexCoordinate) -> Option<
        MoveError,
    > {
        if self.result is Some {
            Some(MoveError::GameAlreadyOver)
        } else if !self.is_own_piece(piece_id) {
            Some(MoveError::NotCurrentPlayersPiece)
        } else if self.pieces@[piece_id - 1].position is Some && self.pieces@[piece_id
            - 1].covered {
            Some(MoveError::PieceNotSelectable)
        } else if self.is_held_back(piece_id) {
            Some(MoveError::WrongPieceForForcedQueenRule)
        } else if !self.legal_cells(piece_id).contains(destination) {
            Some(MoveError::IllegalDestination)
        } else {
            None
        }
    }

    /// `next` is the state that the move of the piece to the cell leads to: the piece stands
    /// on the cell, on top of what stood there; if it came from the hand of the player who
    /// moved, that player's inventory has lost its first entry of the kind; that player has
    /// made one move more; the game is won, drawn or goes on as the new board says, and the
    /// turn passes to the other player where it goes on.
    pub open spec fn leads_to(
        self,
        next: GameState,
        piece_id: u32,
        destination: HexCoordinate,
    ) -> bool {
        let mover = self.current_player_turn;
        let piece = self.pieces@[piece_id - 1];
        let hand = self.inventory_of(mover).pieces@;
        &&& next.pieces@ == pieces_after(self.pieces@, piece_id - 1, destination)
        &&& next.inventory_of(mover).pieces@ == if piece.position is None {
            without_first(hand, piece.insect_type)
        } else {
            hand
        }
        &&& next.inventory_of(mover).moves_played == self.inventory_of(mover).moves_played + 1
        &&& next.inventory_of(mover.opponent()).pieces@ == self.inventory_of(
            mover.opponent(),
        ).pieces@
        &&& next.inventory_of(mover.opponent()).moves_played == self.inventory_of(
            mover.opponent(),
        ).moves_played
        &&& next.result == outcome(next.pieces@, mover)
        &&& next.current_player_turn == if next.result is None {
            mover.opponent()
        } else {
            mover
        }
    }

    /// The number of moves that the pieces with the first `count` ids may make now.
    pub open spec fn moves_of_first(self, count: int) -> nat
        decreases count,
    {
        if count <= 0 {
            0
        } else {
            self.moves_of_first(count - 1) + self.legal_cells(count as u32).len()
        }
    }

    /// The inventory of the given player.
    pub fn inventory(&self, player: Player) -> (inventory: &PlayerInventory)
        ensures
            *inventory == self.inventory_of(player),
    {
        match player {
            Player::Player1 => &self.player1_inventory,
            Player::Player2 => &self.player2_inventory,
        }
    }

    /// How the game ended, once it has.
    pub fn current_result(&self) -> (result: Option<GameResult>)
        ensures
            result == self.result,
    {
        self.result
    }

    /// The board that the pieces make up.
    pub fn board(&self) -> (board: Board)
        requires
            self.wf(),
        ensures
            board@ == board_of(self.pieces@),
            board.occupied() == occupied_cells(self.pieces@),
            board.wf(),
    {
        let board = Board::from_pieces(&self.pieces);
        assert(board@.dom() =~= occupied_cells(self.pieces@));
        board
    }

    /// Tells whether the player has a piece on the board.
    pub fn has_placed(&self, player: Player) -> (placed: bool)
        ensures
            placed == has_piece_on_board(self.pieces@, player),
    {
        let mut i: usize = 0;
        while i < self.pieces.len()
            invariant
                i <= self.pieces@.len(),
                forall|k: int|
                    0 <= k < i ==> !((#[trigger] self.pieces@[k]).player == player
                        && self.pieces@[k].position is Some),
            decreases self.pieces@.len() - i,
        {
            let piece = self.pieces[i];
            if piece.player == player && piece.position.is_some() {
                return true;
            }
            i += 1;
        }
        false
    }

    /// The cells on which the player whose turn it is may place a piece, each once.
    pub fn placement_destinations(&self) -> (cells: Vec<HexCoordinate>)
        requires
            self.wf(),
        ensures
            cells@.no_duplicates(),
            cells@.to_set() == placement_cells(self.pieces@, self.current_player_turn),
    {
        let own_placed = self.has_placed(self.current_player_turn);
        let board = self.board();
        get_moves_for_new_piece(&self.pieces, &board, self.current_player_turn, !own_placed)
    }

    /// The cells to which the piece on the board with the given id may move.
    pub fn relocation_destinations(&self, piece_id: u32) -> (cells: Vec<HexCoordinate>)
        requires
            self.wf(),
            1 <= piece_id <= self.pieces@.len(),
            self.pieces@[piece_id - 1].position is Some,
        ensures
            cells@.no_duplicates(),
            cells@.to_set() == relocation_cells(self.pieces@, piece_id - 1),
    {
        let piece = self.pieces[(piece_id - 1) as usize];
        let from = piece.position.unwrap();
        let mut none: Vec<HexCoordinate> = Vec::new();
        assert(none@.to_set() =~= Set::<HexCoordinate>::empty());
        if piece.covered {
            return none;
        }
        let board = self.board();
        let rest = board.without(&from);
        assert(rest.occupied() =~= occupied_cells(self.pieces@).remove(from));
        if piece.level.0 == 0 && !is_connected(&rest) {
            return none;
        }
        proof {
            lemma_slides_among_distinct(rest.occupied(), from, Set::empty(), 6);
            lemma_jumps_among_distinct(rest.occupied(), from, 6);
            lemma_beetle_steps_distinct(rest.occupied(), from, piece.level.0 > 0, 6);
        }
        match piece.insect_type {
            InsectType::Queen => get_moves_for_queen(&rest, from),
            InsectType::Ant => get_moves_for_ant(&rest, from),
            InsectType::Spider => get_moves_for_spider(&rest, from),
            InsectType::Grasshopper => get_moves_for_grasshopper(&rest, from),
            InsectType::Beetle => get_moves_for_beetle(&rest, from, piece.level.0 > 0),
        }
    }

    /// The cells to which the piece with the given id may move, or on which it may be
    /// placed, now.
    pub fn legal_destinations(&self, piece_id: u32) -> (cells: Vec<HexCoordinate>)
        requires
            self.wf(),
        ensures
            cells@.no_duplicates(),
            cells@.to_set() == self.legal_cells(piece_id),
    {
        let mut none: Vec<HexCoordinate> = Vec::new();
        assert(none@.to_set() =~= Set::<HexCoordinate>::empty());
        if self.result.is_some() || piece_id == 0 || piece_id as usize > self.pieces.len() {
            return none;
        }
        let piece = self.pieces[(piece_id - 1) as usize];
        if piece.player != self.current_player_turn {
            return none;
        }
        match piece.position {
            None => {
                if self.inventory(self.current_player_turn).must_place_queen() && piece.insect_type
                    != InsectType::Queen {
                    none
                } else {
                    self.placement_destinations()
                }
            },
            Some(_) => self.relocation_destinations(piece_id),
        }
    }

    /// The cells on which the player whose turn it is may place a piece of the given kind
    /// now.
    pub fn legal_new_piece_cells(&self, insect_type: InsectType) -> (cells: Vec<HexCoordinate>)
        requires
            self.wf(),
        ensures
            cells@.no_duplicates(),
            cells@.to_set() == self.new_piece_cells(insect_type),
    {
        let mut none: Vec<HexCoordinate> = Vec::new();
        assert(none@.to_set() =~= Set::<HexCoordinate>::empty());
        let inventory = self.inventory(self.current_player_turn);
        if self.result.is_some() || !inventory.holds(insect_type) || (inventory.must_place_queen()
            && insect_type != InsectType::Queen) {
            none
        } else {
            self.placement_destinations()
        }
    }

    /// The reason for which the move of the piece to the cell is turned down, if it is.
    pub fn check_move(&self, piece_id: u32, destination: HexCoordinate) -> (refusal: Option<
        MoveError,
    >)
        requires
            self.wf(),
        ensures
            refusal == self.rejection(piece_id, destination),
    {
        if self.result.is_some() {
            return Some(MoveError::GameAlreadyOver);
        }
        if piece_id == 0 || piece_id as usize > self.pieces.len() {
            return Some(MoveError::NotCurrentPlayersPiece);
        }
        let piece = self.pieces[(piece_id - 1) as usize];
        if piece.player != self.current_player_turn {
            return Some(MoveError::NotCurrentPlayersPiece);
        }
        if piece.position.is_some() && piece.covered {
            return Some(MoveError::PieceNotSelectable);
        }
        if piece.position.is_none() && self.inventory(self.current_player_turn).must_place_queen()
            && piece.insect_type != InsectType::Queen {
            return Some(MoveError::WrongPieceForForcedQueenRule);
        }
        let legal = self.legal_destinations(piece_id);
        if !holds_cell(&legal, &destination) {
            assert(!legal@.to_set().contains(destination));
            return Some(MoveError::IllegalDestination);
        }
        assert(legal@.to_set().contains(destination));
        None
    }

    /// Makes the move of the piece with the given id to the cell, if the move is legal, and
    /// gives the state it leads to; the state itself stays as it is.
    pub fn apply_move(&self, piece_id: u32, destination: HexCoordinate) -> (outcome: Result<
        GameState,
        MoveError,
    >)
        requires
            self.wf(),
            self.inventory_of(self.current_player_turn).moves_played < u32::MAX,
        ensures
            match outcome {
                Ok(next) => self.rejection(piece_id, destination) is None && next.wf()
                    && self.leads_to(next, piece_id, destination),
                Err(error) => self.rejection(piece_id, destination) == Some(error),
            },
    {
        match self.check_move(piece_id, destination) {
            Some(error) => {
                return Err(error);
            },
            None => {},
        }
        let index = (piece_id - 1) as usize;
        let piece = self.pieces[index];
        let mover = self.current_player_turn;
        proof {
            if piece.position is Some {
                lemma_relocation_is_sound(self.pieces@, index as int, destination);
            } else {
                lemma_placement_keeps_one_hive(self.pieces@, mover, index as int, destination);
            }
            lemma_move_keeps_pieces_wf(self.pieces@, index as int, destination);
        }
        let board = self.board();
        let pieces = move_piece(&self.pieces, &board, index, destination);
        let own = self.inventory(mover);
        let hand = if piece.position.is_none() {
            proof {
                lemma_count_in_hand_positive(self.pieces@, index as int);
                lemma_count_kind_positive(own.pieces@, piece.insect_type);
                assert(count_in_hand(self.pieces@, mover, piece.insect_type) == count_kind(
                    self.inventory_of(mover).pieces@,
                    piece.insect_type,
                ));
            }
            take_from_hand(&own.pieces, piece.insect_type)
        } else {
            copy_kinds(&own.pieces)
        };
        let moved = PlayerInventory { pieces: hand, moves_played: own.moves_played + 1 };
        let other = self.inventory(mover.other());
        let unmoved = PlayerInventory {
            pieces: copy_kinds(&other.pieces),
            moves_played: other.moves_played,
        };
        let new_board = Board::from_pieces(&pieces);
        assert(new_board@.dom() =~= occupied_cells(pieces@));
        let result = result_after_move(&pieces, &new_board, mover);
        let current_player_turn = if result.is_none() {
            mover.other()
        } else {
            mover
        };
        let next = match mover {
            Player::Player1 => GameState {
                pieces,
                player1_inventory: moved,
                player2_inventory: unmoved,
                current_player_turn,
                result,
            },
            Player::Player2 => GameState {
                pieces,
                player1_inventory: unmoved,
                player2_inventory: moved,
                current_player_turn,
                result,
            },
        };
        proof {
            assert(self.leads_to(next, piece_id, destination));
            lemma_legal_move_keeps_wf(*self, next, piece_id, destination);
        }
        Ok(next)
    }
}

/// In a well-formed state no two distinct pieces stand on the same cell at the same level.
pub proof fn lemma_no_two_pieces_share_a_level(state: GameState, i: int, j: int)
    requires
        state.wf(),
        0 <= i < state.pieces@.len(),
        0 <= j < state.pieces@.len(),
        i != j,
        state.pieces@[i].position is Some,
        state.pieces@[i].position == state.pieces@[j].position,
    ensures
        state.pieces@[i].level != state.pieces@[j].level,
{
    if state.pieces@[i].level == state.pieces@[j].level {
        lemma_one_piece_per_level(state.pieces@, i, j);
    }
}

/// The first piece of a game makes one hive, and so does each piece placed next to the
/// hive.
pub proof fn lemma_placement_keeps_one_hive(
    pieces: Seq<Piece>,
    player: Player,
    index: int,
    to: HexCoordinate,
)
    requires
        pieces_wf(pieces),
        is_one_hive(occupied_cells(pieces)),
        0 <= index < pieces.len(),
        pieces[index].position is None,
        placement_cells(pieces, player).contains(to),
    ensures
        !occupied_cells(pieces).contains(to),
        is_one_hive(occupied_cells(pieces_after(pieces, index, to))),
{
    let occupied = occupied_cells(pieces);
    lemma_occupied_after_move(pieces, index, to);
    if board_is_empty(pieces) {
        assert(occupied =~= Set::<HexCoordinate>::empty());
        assert(occupied.insert(to) =~= set![to]);
        lemma_single_cell_is_one_hive(to);
    } else {
        let near = choose|o: HexCoordinate| occupied.contains(o) && #[trigger] o.is_adjacent(to);
        lemma_one_hive_with_neighbor(occupied, near, to);
    }
}

/// A legal move leads from a well-formed state to a well-formed state: no two pieces come
/// to stand on the same cell at the same level, the pieces on the board stay one hive, and
/// the inventories stay in step with the hands.
pub proof fn lemma_legal_move_keeps_wf(
    state: GameState,
    next: GameState,
    piece_id: u32,
    destination: HexCoordinate,
)
    requires
        state.wf(),
        state.rejection(piece_id, destination) is None,
        state.leads_to(next, piece_id, destination),
    ensures
        next.wf(),
{
    let mover = state.current_player_turn;
    let before = state.pieces@;
    let index = piece_id - 1;
    let piece = before[index];
    let hand = state.inventory_of(mover).pieces@;
    if piece.position is Some {
        lemma_relocation_is_sound(before, index, destination);
        lemma_relocation_keeps_one_hive(before, index, destination);
    } else {
        lemma_placement_keeps_one_hive(before, mover, index, destination);
    }
    lemma_move_keeps_pieces_wf(before, index, destination);
    if piece.position is None {
        lemma_count_in_hand_positive(before, index);
        lemma_count_kind_positive(hand, piece.insect_type);
        assert(count_in_hand(before, mover, piece.insect_type) == count_kind(
            state.inventory_of(mover).pieces@,
            piece.insect_type,
        ));
        lemma_first_exists(hand, piece.insect_type);
    }
    assert forall|player: Player, kind: InsectType|
        #[trigger] count_in_hand(next.pieces@, player, kind) == count_kind(
            next.inventory_of(player).pieces@,
            kind,
        ) by {
        assert(count_in_hand(before, player, kind) == count_kind(
            state.inventory_of(player).pieces@,
            kind,
        ));
        if piece.position is None {
            lemma_count_in_hand_after_placing(before, next.pieces@, index, player, kind);
            if player == mover {
                let first = choose|i: int| #[trigger] is_first_of(hand, piece.insect_type, i);
                lemma_count_kind_remove(hand, first, kind);
            }
        } else {
            lemma_count_in_hand_unchanged(before, next.pieces@, player, kind);
        }
    }
}

/// `after` follows from `before` by a legal move.
pub open spec fn is_legal_step(before: GameState, after: GameState) -> bool {
    exists|piece_id: u32, destination: HexCoordinate|
        before.rejection(piece_id, destination) is None && #[trigger] before.leads_to(
            after,
            piece_id,
            destination,
        )
}

/// The state at place `k` of `states` follows from the one before it by a legal move.
pub open spec fn follows(states: Seq<GameState>, k: int) -> bool {
    is_legal_step(states[k - 1], states[k])
}

/// `states` is the course of a game: it begins with a well-formed state, such as that of a
/// new game, and each further state follows from the one before it by a legal move.
pub open spec fn is_play(states: Seq<GameState>) -> bool {
    &&& states.len() > 0
    &&& states[0].wf()
    &&& forall|k: int| 1 <= k < states.len() ==> #[trigger] follows(states, k)
}

/// Every state in the course of a game is well formed, and so in none of them do two
/// distinct pieces stand on the same cell at the same level.
pub proof fn lemma_play_stays_well_formed(states: Seq<GameState>, k: int)
    requires
        is_play(states),
        0 <= k < states.len(),
    ensures
        states[k].wf(),
        forall|i: int, j: int|
            0 <= i < states[k].pieces@.len() && 0 <= j < states[k].pieces@.len() && i != j
                && states[k].pieces@[i].position is Some ==> #[trigger] apart(
                states[k].pieces@,
                i,
                j,
            ),
    decreases k,
{
    if k > 0 {
        lemma_play_stays_well_formed(states, k - 1);
        assert(follows(states, k));
        let (piece_id, destination) = choose|piece_id: u32, destination: HexCoordinate|
            states[k - 1].rejection(piece_id, destination) is None && #[trigger] states[k
                - 1].leads_to(states[k], piece_id, destination);
        lemma_legal_move_keeps_wf(states[k - 1], states[k], piece_id, destination);
    }
}

/// The pieces after the piece at `index` has moved to `destination`, or has been placed
/// there.
pub fn move_piece(
    pieces: &Vec<Piece>,
    board: &Board,
    index: usize,
    destination: HexCoordinate,
) -> (moved: Vec<Piece>)
    requires
        pieces_wf(pieces@),
        board@ == board_of(pieces@),
        board.wf(),
        index < pieces@.len(),
        pieces@[index as int].position != Some(destination),
    ensures
        moved@ == pieces_after(pieces@, index as int, destination),
{
    let piece = pieces[index];
    let mut moved = copy_pieces(pieces);
    match piece.resting_on {
        Some(below) => {
            assert(rests_well(pieces@, index as int));
            let lower = (below - 1) as usize;
            let uncovered = Piece { covered: false, ..moved[lower] };
            moved.set(lower, uncovered);
        },
        None => {},
    }
    assert(moved@ == lifted(pieces@, index as int));
    assert(board@.dom() =~= occupied_cells(pieces@));
    match board.top_at(&destination) {
        Some(top_id) => {
            proof {
                lemma_stack_top(pieces@, destination);
                lemma_stack_leaves_room(pieces@, top_id - 1, index as int);
            }
            let upper = (top_id - 1) as usize;
            let top = pieces[upper];
            moved.set(upper, Piece { covered: true, ..top });
            moved.set(
                index,
                Piece {
                    position: Some(destination),
                    level: Level(top.level.0 + 1),
                    resting_on: Some(top.id),
                    covered: false,
                    ..piece
                },
            );
        },
        None => {
            moved.set(
                index,
                Piece {
                    position: Some(destination),
                    level: Level(0),
                    resting_on: None,
                    covered: false,
                    ..piece
                },
            );
        },
    }
    assert(moved@ =~= pieces_after(pieces@, index as int, destination));
    moved
}

/// The inventory without its first entry of the given kind.
pub fn take_from_hand(hand: &Vec<InsectType>, insect_type: InsectType) -> (rest: Vec<InsectType>)
    requires
        hand@.contains(insect_type),
    ensures
        rest@ == without_first(hand@, insect_type),
        exists|i: int| #[trigger] is_first_of(hand@, insect_type, i),
{
    let mut rest = copy_kinds(hand);
    let mut i: usize = 0;
    while i < rest.len() && rest[i] != insect_type
        invariant
            i <= rest@.len(),
            rest@ == hand@,
            hand@.contains(insect_type),
            forall|j: int| 0 <= j < i ==> hand@[j] != insect_type,
        decreases rest@.len() - i,
    {
        i += 1;
    }
    proof {
        if i == rest@.len() {
            let k = choose|k: int| 0 <= k < hand@.len() && hand@[k] == insect_type;
            assert(hand@[k] != insect_type);
        }
        assert(is_first_of(hand@, insect_type, i as int));
        lemma_first_is_unique(hand@, insect_type, i as int);
    }
    rest.remove(i);
    rest
}

/// A copy of a list of pieces.
fn copy_pieces(pieces: &Vec<Piece>) -> (copy: Vec<Piece>)
    ensures
        copy@ == pieces@,
{
    let mut copy: Vec<Piece> = Vec::new();
    let mut i: usize = 0;
    while i < pieces.len()
        invariant
            i <= pieces@.len(),
            copy@ == pieces@.subrange(0, i as int),
        decreases pieces@.len() - i,
    {
        copy.push(pieces[i]);
        assert(copy@ =~= pieces@.subrange(0, i + 1));
        i += 1;
    }
    assert(copy@ =~= pieces@);
    copy
}

/// A copy of a list of kinds.
fn copy_kinds(kinds: &Vec<InsectType>) -> (copy: Vec<InsectType>)
    ensures
        copy@ == kinds@,
{
    let mut copy: Vec<InsectType> = Vec::new();
    let mut i: usize = 0;
    while i < kinds.len()
        invariant
            i <= kinds@.len(),
            copy@ == kinds@.subrange(0, i as int),
        decreases kinds@.len() - i,
    {
        copy.push(kinds[i]);
        assert(copy@ =~= kinds@.subrange(0, i + 1));
        i += 1;
    }
    assert(copy@ =~= kinds@);
    copy
}

/// Adds to `pieces` the pieces with which `player` starts a game.
fn deal(pieces: &mut Vec<Piece>, player: Player, inventory: &PlayerInventory)
    requires
        inventory.pieces@ == starting_pieces(),
        old(pieces)@.len() == match player {
            Player::Player1 => 0int,
            Player::Player2 => 10int,
        },
    ensures
        final(pieces)@ == old(pieces)@ + Seq::new(10, |i: int| starting_piece(player, i)),
        forall|owner: Player, kind: InsectType|
            #[trigger] count_in_hand(final(pieces)@, owner, kind) == count_in_hand(
                old(pieces)@,
                owner,
                kind,
            ) + if owner == player {
                count_kind(inventory.pieces@, kind)
            } else {
                0nat
            },
{
    let first: u32 = match player {
        Player::Player1 => 1,
        Player::Player2 => 11,
    };
    let mut i: usize = 0;
    while i < 10
        invariant
            i <= 10,
            inventory.pieces@ == starting_pieces(),
            first == match player {
                Player::Player1 => 1int,
                Player::Player2 => 11int,
            },
            pieces@ == old(pieces)@ + Seq::new(i as nat, |k: int| starting_piece(player, k)),
            forall|owner: Player, kind: InsectType|
                #[trigger] count_in_hand(pieces@, owner, kind) == count_in_hand(
                    old(pieces)@,
                    owner,
                    kind,
                ) + if owner == player {
                    count_kind(inventory.pieces@.subrange(0, i as int), kind)
                } else {
                    0nat
                },
        decreases 10 - i,
    {
        let ghost before = pieces@;
        let piece = Piece {
            id: first + i as u32,
            insect_type: inventory.pieces[i],
            player,
            position: None,
            level: Level(0),
            resting_on: None,
            covered: false,
        };
        pieces.push(piece);
        proof {
            assert(piece == starting_piece(player, i as int));
            assert(pieces@ =~= old(pieces)@ + Seq::new((i + 1) as nat, |k: int| starting_piece(player, k)));
            let hand = inventory.pieces@;
            assert(hand.subrange(0, i + 1) =~= hand.subrange(0, i as int).push(hand[i as int]));
            assert forall|owner: Player, kind: InsectType|
                #[trigger] count_in_hand(pieces@, owner, kind) == count_in_hand(
                    old(pieces)@,
                    owner,
                    kind,
                ) + if owner == player {
                    count_kind(hand.subrange(0, i + 1), kind)
                } else {
                    0nat
                } by {
                lemma_count_in_hand_push(before, piece, owner, kind);
                lemma_count_kind_push(hand.subrange(0, i as int), hand[i as int], kind);
            }
        }
        i += 1;
    }
    proof {
        assert(inventory.pieces@.subrange(0, 10) =~= inventory.pieces@);
    }
}

/// The state at the start of a game: every piece in its owner's hand, the first player to
/// move, no result.
pub fn create_game_state() -> (state: GameState)
    ensures
        state.wf(),
        state.pieces@ == starting_lineup(),
        state.player1_inventory.pieces@ == starting_pieces(),
        state.player2_inventory.pieces@ == starting_pieces(),
        state.player1_inventory.moves_played == 0,
        state.player2_inventory.moves_played == 0,
        state.current_player_turn == Player::Player1,
        state.result is None,
{
    let player1_inventory = PlayerInventory::new();
    let player2_inventory = PlayerInventory::new();
    let mut pieces: Vec<Piece> = Vec::new();
    deal(&mut pieces, Player::Player1, &player1_inventory);
    deal(&mut pieces, Player::Player2, &player2_inventory);
    let state = GameState {
        pieces,
        player1_inventory,
        player2_inventory,
        current_player_turn: Player::Player1,
        result: None,
    };
    proof {
        assert(state.pieces@ =~= starting_lineup());
        assert forall|i: int| 0 <= i < state.pieces@.len() implies #[trigger] rests_well(
            state.pieces@,
            i,
        ) by {}
        assert forall|i: int| 0 <= i < state.pieces@.len() implies #[trigger] covered_well(
            state.pieces@,
            i,
        ) by {}
        assert(pieces_wf(state.pieces@));
        assert(occupied_cells(state.pieces@) =~= Set::<HexCoordinate>::empty());
        assert forall|player: Player, kind: InsectType|
            #[trigger] count_in_hand(state.pieces@, player, kind) == count_kind(
                state.inventory_of(player).pieces@,
                kind,
            ) by {
            let none = Seq::<Piece>::empty();
            assert(count_in_hand(none, player, kind) == 0);
        }
    }
    state
}

/// The list holds the move of the piece to the cell.
pub open spec fn lists(moves: Seq<Move>, piece_id: u32, to: HexCoordinate) -> bool {
    exists|k: int|
        0 <= k < moves.len() && (#[trigger] moves[k]).piece_id == piece_id && moves[k].to == to
}

/// Every move that the player whose turn it is may make now, each once: for each piece, in
/// the order of the ids, its legal destinations.
pub fn get_possible_moves(game_state: &GameState) -> (valid_moves: Vec<Move>)
    requires
        game_state.wf(),
    ensures
        forall|piece_id: u32, to: HexCoordinate|
            #[trigger] lists(valid_moves@, piece_id, to) <==> game_state.legal_cells(
                piece_id,
            ).contains(to),
        valid_moves@.no_duplicates(),
        valid_moves@.len() == game_state.moves_of_first(game_state.pieces@.len() as int),
        forall|a: int, b: int|
            0 <= a <= b < valid_moves@.len() ==> (#[trigger] valid_moves@[a]).piece_id <= (
            #[trigger] valid_moves@[b]).piece_id,
{
    let mut valid_moves: Vec<Move> = Vec::new();
    let mut i: usize = 0;
    while i < game_state.pieces.len()
        invariant
            i <= game_state.pieces@.len(),
            game_state.wf(),
            forall|piece_id: u32, to: HexCoordinate|
                #[trigger] lists(valid_moves@, piece_id, to) <==> piece_id <= i
                    && game_state.legal_cells(piece_id).contains(to),
            valid_moves@.no_duplicates(),
            valid_moves@.len() == game_state.moves_of_first(i as int),
            forall|m: int| 0 <= m < valid_moves@.len() ==> (#[trigger] valid_moves@[m]).piece_id <= i,
            forall|a: int, b: int|
                0 <= a <= b < valid_moves@.len() ==> (#[trigger] valid_moves@[a]).piece_id <= (
                #[trigger] valid_moves@[b]).piece_id,
        decreases game_state.pieces@.len() - i,
    {
        let id = (i + 1) as u32;
        let cells = game_state.legal_destinations(id);
        let ghost earlier = valid_moves@;
        proof {
            cells@.unique_seq_to_set();
        }
        let mut k: usize = 0;
        while k < cells.len()
            invariant
                k <= cells@.len(),
                id == i + 1,
                forall|m: int|
                    0 <= m < earlier.len() ==> #[trigger] valid_moves@[m] == earlier[m],
                valid_moves@.len() == earlier.len() + k,
                forall|m: int|
                    0 <= m < k ==> (#[trigger] valid_moves@[earlier.len() + m]).piece_id == id
                        && valid_moves@[earlier.len() + m].to == cells@[m],
            decreases cells@.len() - k,
        {
            valid_moves.push(Move { piece_id: id, to: cells[k] });
            k += 1;
        }
        proof {
            assert forall|a: int, b: int|
                0 <= a < valid_moves@.len() && 0 <= b < valid_moves@.len() && a != b implies valid_moves@[a]
                != valid_moves@[b] by {
                if a < earlier.len() && b < earlier.len() {
                    assert(valid_moves@[a] == earlier[a] && valid_moves@[b] == earlier[b]);
                } else if a < earlier.len() {
                    assert(valid_moves@[a] == earlier[a]);
                    assert(valid_moves@[earlier.len() + (b - earlier.len())].piece_id == id);
                } else if b < earlier.len() {
                    assert(valid_moves@[b] == earlier[b]);
                    assert(valid_moves@[earlier.len() + (a - earlier.len())].piece_id == id);
                } else {
                    let x: int = a - earlier.len();
                    let y: int = b - earlier.len();
                    assert(valid_moves@[earlier.len() + x].to == cells@[x]);
                    assert(valid_moves@[earlier.len() + y].to == cells@[y]);
                }
            }
            assert forall|m: int| 0 <= m < valid_moves@.len() implies (#[trigger] valid_moves@[m]).piece_id
                <= i + 1 by {
                if m < earlier.len() {
                    assert(valid_moves@[m] == earlier[m]);
                } else {
                    assert(valid_moves@[earlier.len() + (m - earlier.len())].piece_id == id);
                }
            }
            assert forall|a: int, b: int| 0 <= a <= b < valid_moves@.len() implies (
            #[trigger] valid_moves@[a]).piece_id <= (#[trigger] valid_moves@[b]).piece_id by {
                if b < earlier.len() {
                    assert(valid_moves@[a] == earlier[a] && valid_moves@[b] == earlier[b]);
                } else {
                    assert(valid_moves@[earlier.len() + (b - earlier.len())].piece_id == id);
                }
            }
            assert forall|piece_id: u32, to: HexCoordinate|
                #[trigger] lists(valid_moves@, piece_id, to) <==> piece_id <= i + 1
                    && game_state.legal_cells(piece_id).contains(to) by {
                if lists(earlier, piece_id, to) {
                    let m = choose|m: int|
                        0 <= m < earlier.len() && (#[trigger] earlier[m]).piece_id == piece_id
                            && earlier[m].to == to;
                    assert(valid_moves@[m] == earlier[m]);
                }
                if piece_id == id && cells@.to_set().contains(to) {
                    let m = choose|m: int| 0 <= m < cells@.len() && cells@[m] == to;
                    assert(valid_moves@[earlier.len() + m].to == to);
                }
                if lists(valid_moves@, piece_id, to) {
                    let m = choose|m: int|
                        0 <= m < valid_moves@.len() && (#[trigger] valid_moves@[m]).piece_id
                            == piece_id && valid_moves@[m].to == to;
                    if m < earlier.len() {
                        assert(valid_moves@[m] == earlier[m]);
                        assert(lists(earlier, piece_id, to));
                    } else {
                        let offset: int = m - earlier.len();
                        assert(valid_moves@[earlier.len() + offset].to == cells@[offset]);
                        assert(cells@.contains(cells@[offset]));
                    }
                }
            }
        }
        i += 1;
    }
    valid_moves
}

} // verus!
