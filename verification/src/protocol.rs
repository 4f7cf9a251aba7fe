//! The values that travel between the board and the players.

use vstd::prelude::*;

verus! {

/// One of the two competing teams.
#[derive(Clone, Copy, Debug, PartialEq, Eq, Hash, Structural)]
pub enum Team {
    Red,
    Blue,
}

/// What a tile stands for.
///
/// `Unknown` is what a player sees of a tile that has not been revealed to
/// them; a board never stores it.
#[derive(Clone, Copy, Debug, PartialEq, Eq, Hash, Structural)]
pub enum Character {
    Bystander,
    BlueAgent,
    RedAgent,
    Assassin,
    Unknown,
}

/// The part a player takes in the round. Only the spymaster may see tiles
/// that have not been spotted yet.
#[derive(Clone, Copy, Debug, PartialEq, Eq, Hash, Structural)]
pub enum PlayerRole {
    Spymaster,
    Operative,
}

/// One tile of the grid.
#[derive(Clone, Debug, PartialEq, Eq)]
pub struct Tile {
    /// The word printed on the tile.
    pub codeword: String,
    /// Whom the tile belongs to.
    pub character: Character,
    /// Whether the tile has been revealed to every player.
    pub spotted: bool,
}

/// The mathematical value of a [`Tile`].
pub struct TileView {
    pub codeword: Seq<char>,
    pub character: Character,
    pub spotted: bool,
}

impl View for Tile {
    type V = TileView;

    open spec fn view(&self) -> TileView {
        TileView { codeword: self.codeword@, character: self.character, spotted: self.spotted }
    }
}

impl DeepView for Tile {
    type V = TileView;

    open spec fn deep_view(&self) -> TileView {
        self@
    }
}

impl Team {
    /// The other team.
    pub open spec fn spec_opponent(self) -> Team {
        match self {
            Team::Red => Team::Blue,
            Team::Blue => Team::Red,
        }
    }

    /// The character that marks an agent of this team.
    pub open spec fn spec_agent(self) -> Character {
        match self {
            Team::Red => Character::RedAgent,
            Team::Blue => Character::BlueAgent,
        }
    }

    /// The other team.
    #[verifier::when_used_as_spec(spec_opponent)]
    pub fn opponent(self) -> (other: Team)
        ensures
            other == self.spec_opponent(),
    {
        match self {
            Team::Red => Team::Blue,
            Team::Blue => Team::Red,
        }
    }

    /// The character that marks an agent of this team.
    #[verifier::when_used_as_spec(spec_agent)]
    pub fn agent(self) -> (character: Character)
        ensures
            character == self.spec_agent(),
    {
        match self {
            Team::Red => Character::RedAgent,
            Team::Blue => Character::BlueAgent,
        }
    }
}

} // verus!
