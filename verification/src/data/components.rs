use crate::data::enums::InsectType;
use vstd::prelude::*;

verus! {

/// Height of a piece in the stack of its cell: the number of pieces beneath it.
#[derive(Clone, Copy, Debug, PartialEq, Eq, Structural)]
pub struct Level(pub u32);

/// The pieces that a player has not placed yet, and the number of moves the player has made.
#[derive(Clone, Debug)]
pub struct PlayerInventory {
    pub pieces: Vec<InsectType>,
    pub moves_played: u32,
}

/// The pieces with which each player starts a game.
pub open spec fn starting_pieces() -> Seq<InsectType> {
    seq![
        InsectType::Ant,
        InsectType::Ant,
        InsectType::Ant,
        InsectType::Queen,
        InsectType::Spider,
        InsectType::Spider,
        InsectType::Beetle,
        InsectType::Beetle,
        InsectType::Grasshopper,
        InsectType::Grasshopper,
    ]
}

impl PlayerInventory {
    /// The player has made exactly two moves and still holds the queen, so that the queen is
    /// the only piece the player may place now.
    pub open spec fn queen_is_forced(self) -> bool {
        self.moves_played == 2 && self.pieces@.contains(InsectType::Queen)
    }

    /// The pieces that the player may place now: the queen alone where it is forced, else
    /// everything in hand.
    pub open spec fn placeable(self) -> Seq<InsectType> {
        if self.queen_is_forced() {
            seq![InsectType::Queen]
        } else {
            self.pieces@
        }
    }

    /// The inventory at the start of a game.
    pub fn new() -> (inventory: PlayerInventory)
        ensures
            inventory.pieces@ == starting_pieces(),
            inventory.moves_played == 0,
    {
        let mut pieces: Vec<InsectType> = Vec::new();
        pieces.push(InsectType::Ant);
        pieces.push(InsectType::Ant);
        pieces.push(InsectType::Ant);
        pieces.push(InsectType::Queen);
        pieces.push(InsectType::Spider);
        pieces.push(InsectType::Spider);
        pieces.push(InsectType::Beetle);
        pieces.push(InsectType::Beetle);
        pieces.push(InsectType::Grasshopper);
        pieces.push(InsectType::Grasshopper);
        assert(pieces@ =~= starting_pieces());
        PlayerInventory { pieces, moves_played: 0 }
    }

    /// Index of the first piece of the given kind in hand, if there is one.
    pub fn position_of(&self, insect_type: InsectType) -> (found: Option<usize>)
        ensures
            match found {
                Some(i) => {
                    &&& i < self.pieces@.len()
                    &&& self.pieces@[i as int] == insect_type
                    &&& forall|j: int| 0 <= j < i ==> self.pieces@[j] != insect_type
                },
                None => !self.pieces@.contains(insect_type),
            },
    {
        let mut i: usize = 0;
        while i < self.pieces.len()
            invariant
                i <= self.pieces@.len(),
                forall|j: int| 0 <= j < i ==> self.pieces@[j] != insect_type,
            decreases self.pieces@.len() - i,
        {
            if self.pieces[i] == insect_type {
                return Some(i);
            }
            i += 1;
        }
        None
    }

    /// Tells whether a piece of the given kind is in hand.
    pub fn holds(&self, insect_type: InsectType) -> (b: bool)
        ensures
            b == self.pieces@.contains(insect_type),
    {
        self.position_of(insect_type).is_some()
    }

    /// Tells whether the queen is the only piece that the player may place now.
    pub fn must_place_queen(&self) -> (b: bool)
        ensures
            b == self.queen_is_forced(),
    {
        self.moves_played == 2 && self.holds(InsectType::Queen)
    }

    /// The pieces that the player may place now.
    pub fn placeable_pieces(&self) -> (pieces: Vec<InsectType>)
        ensures
            pieces@ == self.placeable(),
    {
        let mut pieces: Vec<InsectType> = Vec::new();
        if self.must_place_queen() {
            pieces.push(InsectType::Queen);
            assert(pieces@ =~= seq![InsectType::Queen]);
        } else {
            let mut i: usize = 0;
            while i < self.pieces.len()
                invariant
                    i <= self.pieces@.len(),
                    pieces@ == self.pieces@.subrange(0, i as int),
                decreases self.pieces@.len() - i,
            {
                pieces.push(self.pieces[i]);
                assert(pieces@ =~= self.pieces@.subrange(0, i + 1));
                i += 1;
            }
            assert(pieces@ =~= self.pieces@);
        }
        pieces
    }
}

} // verus!
