use vstd::prelude::*;

verus! {

/// One of the two sides of a game.
#[derive(Clone, Copy, Debug, PartialEq, Eq, Hash, Structural)]
pub enum Player {
    Player1,
    Player2,
}

impl Player {
    /// The opposing side.
    pub open spec fn opponent(self) -> Player {
        match self {
            Player::Player1 => Player::Player2,
            Player::Player2 => Player::Player1,
        }
    }

    /// The opposing side.
    pub fn other(&self) -> (p: Player)
        ensures
            p == self.opponent(),
    {
        match self {
            Player::Player1 => Player::Player2,
            Player::Player2 => Player::Player1,
        }
    }
}

/// The kinds of piece.
#[derive(Clone, Copy, Debug, PartialEq, Eq, Structural)]
pub enum InsectType {
    Ant,
    Queen,
    Spider,
    Grasshopper,
    Beetle,
}

impl Default for InsectType {
    fn default() -> (t: InsectType)
        ensures
            t == InsectType::Ant,
    {
        InsectType::Ant
    }
}

/// How a finished game ended.
#[derive(Clone, Copy, Debug, PartialEq, Eq, Structural)]
pub enum GameResult {
    Draw,
    PlayerWon(Player),
}

/// The stages of a turn as the player's table shows them.
#[derive(Clone, Copy, Debug, PartialEq, Eq, Hash, Structural)]
pub enum AppState {
    /// The table is being set up.
    Init,
    /// The player whose turn it is has not picked a piece.
    Idle,
    /// A piece is picked and follows the player's hand.
    MovingTile,
    /// A move has been made and awaits its outcome.
    MoveFinished,
    /// The game has ended.
    PlayerWon,
}

impl Default for AppState {
    fn default() -> (state: AppState)
        ensures
            state == AppState::Init,
    {
        AppState::Init
    }
}

/// What can happen at the table during a turn.
#[derive(Clone, Copy, Debug, PartialEq, Eq, Structural)]
pub enum AppEvent {
    /// The table is set up.
    Started,
    /// The player picked one of the pieces that are theirs to move.
    PiecePicked,
    /// The player dropped the picked piece on one of its legal destinations.
    MoveMade,
    /// The player dropped the picked piece anywhere else.
    MoveAbandoned,
    /// The outcome of the move is known.
    Resolved(Option<GameResult>),
}

impl AppState {
    /// The stage that follows on the event. An event that does not belong to the stage
    /// changes nothing.
    pub open spec fn after(self, event: AppEvent) -> AppState {
        match (self, event) {
            (AppState::Init, AppEvent::Started) => AppState::Idle,
            (AppState::Idle, AppEvent::PiecePicked) => AppState::MovingTile,
            (AppState::MovingTile, AppEvent::MoveMade) => AppState::MoveFinished,
            (AppState::MovingTile, AppEvent::MoveAbandoned) => AppState::Idle,
            (AppState::MoveFinished, AppEvent::Resolved(None)) => AppState::Idle,
            (AppState::MoveFinished, AppEvent::Resolved(Some(_))) => AppState::PlayerWon,
            _ => self,
        }
    }

    /// The stage that follows on the event.
    pub fn advance(self, event: AppEvent) -> (next: AppState)
        ensures
            next == self.after(event),
    {
        match (self, event) {
            (AppState::Init, AppEvent::Started) => AppState::Idle,
            (AppState::Idle, AppEvent::PiecePicked) => AppState::MovingTile,
            (AppState::MovingTile, AppEvent::MoveMade) => AppState::MoveFinished,
            (AppState::MovingTile, AppEvent::MoveAbandoned) => AppState::Idle,
            (AppState::MoveFinished, AppEvent::Resolved(None)) => AppState::Idle,
            (AppState::MoveFinished, AppEvent::Resolved(Some(_))) => AppState::PlayerWon,
            _ => self,
        }
    }
}

} // verus!
