//! The board of one round, and what each player may see of it.

use vstd::multiset::*;
use vstd::prelude::*;
use vstd::seq_lib::*;
use vstd::set_lib::*;

use crate::lexicon::Lexicon;
use crate::protocol::{Character, PlayerRole, Team, Tile, TileView};
use crate::random::{choose_multiple, flip_coin, is_selection, shuffle};

verus! {

/// The grid has `SIZE` rows of `SIZE` tiles.
pub const SIZE: usize = 5;

/// The number of tiles on a board.
pub const TILE_COUNT: usize = SIZE * SIZE;

/// The number of tiles that belong to neither team nor to the assassin.
pub const BYSTANDERS: usize = 7;

/// The number of agents of the team that starts the round.
pub const STARTING_AGENTS: usize = 9;

/// The number of agents of the team that does not start the round.
pub const OTHER_AGENTS: usize = 8;

/// Why no board could be made.
#[derive(Clone, Copy, Debug, PartialEq, Eq, Structural)]
pub enum BoardError {
    /// The lexicon holds fewer words than a board has tiles.
    InsufficientLexicon,
}

/// The mathematical value of a [`Board`].
pub struct BoardView {
    pub tiles: Seq<TileView>,
    pub starting_team: Team,
}

/// The characters of `tiles`, in the order of the tiles.
pub open spec fn characters_of(tiles: Seq<TileView>) -> Seq<Character> {
    Seq::new(tiles.len(), |i: int| tiles[i].character)
}

/// The codewords of `tiles`, in the order of the tiles.
pub open spec fn codewords_of(tiles: Seq<TileView>) -> Seq<Seq<char>> {
    Seq::new(tiles.len(), |i: int| tiles[i].codeword)
}

/// How often `character` occurs among `characters`.
pub open spec fn occurrences(characters: Seq<Character>, character: Character) -> nat {
    characters.to_multiset().count(character)
}

/// Whether `characters` are those of one round that `starting_team` opens:
/// one assassin, seven bystanders, nine agents of the starting team and eight
/// of the other, in any order.
pub open spec fn is_full_cast(characters: Seq<Character>, starting_team: Team) -> bool {
    &&& characters.len() == TILE_COUNT
    &&& occurrences(characters, Character::Assassin) == 1
    &&& occurrences(characters, Character::Bystander) == BYSTANDERS
    &&& occurrences(characters, starting_team.agent()) == STARTING_AGENTS
    &&& occurrences(characters, starting_team.opponent().agent()) == OTHER_AGENTS
}

impl BoardView {
    /// Whether this is the state of a round: twenty-five tiles that hold the
    /// full cast for the starting team, each with a character that is known,
    /// no codeword twice.
    pub open spec fn is_valid(self) -> bool {
        &&& self.tiles.len() == TILE_COUNT
        &&& is_full_cast(characters_of(self.tiles), self.starting_team)
        &&& forall|i: int|
            0 <= i < self.tiles.len() ==> (#[trigger] self.tiles[i]).character
                != Character::Unknown
        &&& codewords_of(self.tiles).no_duplicates()
    }
}

/// The characters of a round that `starting_team` opens, before they are
/// shuffled: the bystanders, then the blue agents, then the red agents, and
/// the assassin last.
pub open spec fn unshuffled_cast(starting_team: Team) -> Seq<Character> {
    let blue_agents: nat = if starting_team == Team::Blue {
        STARTING_AGENTS as nat
    } else {
        OTHER_AGENTS as nat
    };
    let red_agents: nat = if starting_team == Team::Red {
        STARTING_AGENTS as nat
    } else {
        OTHER_AGENTS as nat
    };
    Seq::new(BYSTANDERS as nat, |i: int| Character::Bystander) + Seq::new(
        blue_agents,
        |i: int| Character::BlueAgent,
    ) + Seq::new(red_agents, |i: int| Character::RedAgent) + seq![Character::Assassin]
}

/// The tiles that `codewords` and `characters` make when each codeword, from
/// the first on, takes the character that is last in what is left of
/// `characters`. No tile is spotted.
pub open spec fn dealt_tiles(characters: Seq<Character>, codewords: Seq<Seq<char>>) -> Seq<
    TileView,
> {
    Seq::new(
        codewords.len(),
        |i: int|
            TileView {
                codeword: codewords[i],
                character: characters[characters.len() - 1 - i],
                spotted: false,
            },
    )
}

/// What `tile` looks like to a player in `role`: the spymaster sees the tile
/// as it is, anyone else sees the character of a spotted tile only.
pub open spec fn shown_to(tile: TileView, role: PlayerRole) -> TileView {
    if !tile.spotted && role != PlayerRole::Spymaster {
        TileView { codeword: tile.codeword, character: Character::Unknown, spotted: tile.spotted }
    } else {
        tile
    }
}

/// What `tiles` look like to a player in `role`.
pub open spec fn visible_tiles(tiles: Seq<TileView>, role: PlayerRole) -> Seq<TileView> {
    Seq::new(tiles.len(), |i: int| shown_to(tiles[i], role))
}

/// The true state of one round.
pub struct Board {
    tiles: Vec<Tile>,
    starting_team: Team,
}

impl View for Board {
    type V = BoardView;

    closed spec fn view(&self) -> BoardView {
        BoardView { tiles: self.tiles.deep_view(), starting_team: self.starting_team }
    }
}

impl Board {
    #[verifier::type_invariant]
    spec fn well_formed(&self) -> bool {
        self@.is_valid()
    }

    /// Creates a new board: picks the starting team by a coin flip, shuffles
    /// the characters, draws as many words from `lexicon` as the board has
    /// tiles, and deals them.
    pub fn new(lexicon: &Lexicon) -> (board: Result<Board, BoardError>)
        ensures
            board is Err <==> lexicon@.len() < TILE_COUNT,
            board matches Err(error) ==> error == BoardError::InsufficientLexicon,
            board matches Ok(b) ==> {
                &&& b@.is_valid()
                &&& forall|i: int|
                    0 <= i < b@.tiles.len() ==> !(#[trigger] b@.tiles[i]).spotted
                        && lexicon@.contains(b@.tiles[i].codeword)
                &&& lexicon@.len() == TILE_COUNT ==> codewords_of(b@.tiles).to_set()
                    == lexicon@.to_set()
            },
    {
        if lexicon.len() < TILE_COUNT {
            return Err(BoardError::InsufficientLexicon);
        }
        let mut rng = rand::thread_rng();
        let starting_team = if flip_coin(&mut rng) {
            Team::Red
        } else {
            Team::Blue
        };
        let mut characters = character_deck(starting_team);
        shuffle(&mut characters, &mut rng);
        let codewords = choose_multiple(lexicon.words(), &mut rng, TILE_COUNT);
        proof {
            let picks = choose|picks: Seq<int>|
                is_selection(lexicon@, codewords.deep_view(), picks);
            lemma_selection_of_distinct(lexicon@, codewords.deep_view(), picks);
            to_multiset_len(characters@);
            to_multiset_len(unshuffled_cast(starting_team));
            lemma_dealt_board_is_valid(starting_team, characters@, codewords.deep_view());
            assert(codewords_of(dealt_tiles(characters@, codewords.deep_view()))
                == codewords.deep_view());
            if lexicon@.len() == TILE_COUNT {
                lemma_draw_of_every_word(lexicon@, codewords.deep_view());
            }
        }
        let board = Board::deal(starting_team, characters, codewords);
        Ok(board.unwrap())
    }

    /// Deals `codewords` and `characters` into a board that `starting_team`
    /// opens: the first codeword takes the last character, the second the one
    /// before it, and so on. There is a board exactly if that gives the state
    /// of a round.
    pub fn deal(starting_team: Team, characters: Vec<Character>, codewords: Vec<String>) -> (board:
        Option<Board>)
        ensures
            board is Some <==> characters.len() == codewords.len() && (BoardView {
                tiles: dealt_tiles(characters@, codewords.deep_view()),
                starting_team,
            }).is_valid(),
            board matches Some(b) ==> b@ == (BoardView {
                tiles: dealt_tiles(characters@, codewords.deep_view()),
                starting_team,
            }),
    {
        if characters.len() != codewords.len() {
            return None;
        }
        let mut tiles: Vec<Tile> = Vec::new();
        let mut i: usize = 0;
        while i < codewords.len()
            invariant
                i <= codewords.len() == characters.len(),
                tiles.len() == i,
                tiles.deep_view() == dealt_tiles(characters@, codewords.deep_view()).take(i as int),
            decreases codewords.len() - i,
        {
            let ghost before = tiles.deep_view();
            tiles.push(
                Tile {
                    codeword: codewords[i].clone(),
                    character: characters[characters.len() - 1 - i],
                    spotted: false,
                },
            );
            i += 1;
            proof {
                let dealt = dealt_tiles(characters@, codewords.deep_view());
                assert forall|k: int| 0 <= k < i implies tiles.deep_view()[k] == dealt[k] by {
                    if k < i - 1 {
                        assert(tiles.deep_view()[k] == before[k]);
                    }
                }
            }
        }
        proof {
            let dealt = dealt_tiles(characters@, codewords.deep_view());
            assert(dealt.take(i as int) == dealt);
        }
        Board::from_tiles(tiles, starting_team)
    }

    /// Makes a board of `tiles` that `starting_team` opens. There is a board
    /// exactly if the tiles are the state of a round.
    pub fn from_tiles(tiles: Vec<Tile>, starting_team: Team) -> (board: Option<Board>)
        ensures
            board is Some <==> (BoardView { tiles: tiles.deep_view(), starting_team }).is_valid(),
            board matches Some(b) ==> b@ == (BoardView { tiles: tiles.deep_view(), starting_team }),
    {
        if tiles.len() != TILE_COUNT {
            return None;
        }
        if count_character(&tiles, Character::Assassin) != 1 || count_character(
            &tiles,
            Character::Bystander,
        ) != BYSTANDERS || count_character(&tiles, starting_team.agent()) != STARTING_AGENTS
            || count_character(&tiles, starting_team.opponent().agent()) != OTHER_AGENTS {
            return None;
        }
        if has_repeated_codeword(&tiles) {
            return None;
        }
        proof {
            let characters = characters_of(tiles.deep_view());
            lemma_full_cast_is_known(characters, starting_team);
            assert forall|i: int| 0 <= i < tiles.len() implies tiles.deep_view()[i].character
                != Character::Unknown by {
                assert(characters[i] == tiles.deep_view()[i].character);
            }
        }
        Some(Board { tiles, starting_team })
    }

    /// Returns the starting team.
    pub fn starting_team(&self) -> (team: Team)
        ensures
            team == self@.starting_team,
    {
        self.starting_team
    }

    /// Returns the tiles, as they truly are.
    pub fn tiles(&self) -> (tiles: &[Tile])
        ensures
            tiles@.len() == TILE_COUNT,
            tiles.deep_view() == self@.tiles,
            forall|i: int| 0 <= i < tiles@.len() ==> (#[trigger] tiles@[i])@ == self@.tiles[i],
            self@.is_valid(),
    {
        proof {
            use_type_invariant(self);
        }
        self.tiles.as_slice()
    }

    /// Returns tiles with non spotted characters hidden.
    ///
    /// The tiles that come back are copies: the board is only read.
    pub fn tiles_for_role(&self, role: PlayerRole) -> (shown: Vec<Tile>)
        ensures
            shown@.len() == TILE_COUNT,
            shown.deep_view() == visible_tiles(self@.tiles, role),
            role == PlayerRole::Spymaster ==> shown.deep_view() == self@.tiles,
            role != PlayerRole::Spymaster ==> forall|i: int|
                0 <= i < shown@.len() ==> (#[trigger] shown@[i])@ == (TileView {
                    codeword: self@.tiles[i].codeword,
                    character: if self@.tiles[i].spotted {
                        self@.tiles[i].character
                    } else {
                        Character::Unknown
                    },
                    spotted: self@.tiles[i].spotted,
                }),
    {
        proof {
            use_type_invariant(self);
        }
        let mut shown: Vec<Tile> = Vec::new();
        let mut i: usize = 0;
        while i < self.tiles.len()
            invariant
                i <= self.tiles.len(),
                shown.len() == i,
                shown.deep_view() == visible_tiles(self@.tiles, role).take(i as int),
            decreases self.tiles.len() - i,
        {
            let tile = &self.tiles[i];
            let character = if !tile.spotted && role != PlayerRole::Spymaster {
                Character::Unknown
            } else {
                tile.character
            };
            let ghost before = shown.deep_view();
            shown.push(Tile { codeword: tile.codeword.clone(), character, spotted: tile.spotted });
            i += 1;
            proof {
                let visible = visible_tiles(self@.tiles, role);
                assert forall|k: int| 0 <= k < i implies shown.deep_view()[k] == visible[k] by {
                    if k < i - 1 {
                        assert(shown.deep_view()[k] == before[k]);
                    }
                }
            }
        }
        proof {
            let visible = visible_tiles(self@.tiles, role);
            assert forall|k: int| 0 <= k < shown@.len() implies (#[trigger] shown@[k])@
                == visible[k] by {
                assert(shown.deep_view()[k] == shown@[k]@);
            }
        }
        shown
    }
}

/// The characters of a round that `starting_team` opens, not yet shuffled.
pub fn character_deck(starting_team: Team) -> (deck: Vec<Character>)
    ensures
        deck@ == unshuffled_cast(starting_team),
        is_full_cast(deck@, starting_team),
{
    broadcast use {group_multiset_axioms, group_to_multiset_ensures};

    let (blue_agents, red_agents): (usize, usize) = match starting_team {
        Team::Red => (OTHER_AGENTS, STARTING_AGENTS),
        Team::Blue => (STARTING_AGENTS, OTHER_AGENTS),
    };
    let mut deck: Vec<Character> = Vec::new();
    push_copies(&mut deck, Character::Bystander, BYSTANDERS);
    push_copies(&mut deck, Character::BlueAgent, blue_agents);
    push_copies(&mut deck, Character::RedAgent, red_agents);
    deck.push(Character::Assassin);
    deck
}

/// Appends `copies` times `character` to `deck`.
fn push_copies(deck: &mut Vec<Character>, character: Character, copies: usize)
    ensures
        final(deck)@ == old(deck)@ + Seq::new(copies as nat, |i: int| character),
        forall|c: Character|
            #![trigger final(deck)@.to_multiset().count(c)]
            final(deck)@.to_multiset().count(c) == old(deck)@.to_multiset().count(c) + if c
                == character {
                copies as int
            } else {
                0
            },
{
    broadcast use {group_multiset_axioms, group_to_multiset_ensures};

    let mut pushed: usize = 0;
    while pushed < copies
        invariant
            pushed <= copies,
            deck@ == old(deck)@ + Seq::new(pushed as nat, |i: int| character),
            forall|c: Character|
                #![trigger deck@.to_multiset().count(c)]
                deck@.to_multiset().count(c) == old(deck)@.to_multiset().count(c) + if c
                    == character {
                    pushed as int
                } else {
                    0
                },
        decreases copies - pushed,
    {
        let ghost before = deck@;
        deck.push(character);
        pushed += 1;
        assert(deck@.to_multiset() =~= before.to_multiset().insert(character)) by {
            to_multiset_build(before, character);
        }
    }
}

/// How often `character` occurs on `tiles`.
fn count_character(tiles: &Vec<Tile>, character: Character) -> (n: usize)
    ensures
        n == occurrences(characters_of(tiles.deep_view()), character),
{
    broadcast use group_multiset_axioms;

    let ghost characters = characters_of(tiles.deep_view());
    let mut n: usize = 0;
    let mut i: usize = 0;
    assert(characters.take(0).to_multiset().count(character) == 0) by {
        to_multiset_len(characters.take(0));
        lemma_multiset_empty_len(characters.take(0).to_multiset());
    }
    while i < tiles.len()
        invariant
            i <= tiles.len(),
            n <= i,
            characters == characters_of(tiles.deep_view()),
            n == characters.take(i as int).to_multiset().count(character),
        decreases tiles.len() - i,
    {
        proof {
            assert(characters.take(i + 1) == characters.take(i as int).push(characters[i as int]));
            to_multiset_build(characters.take(i as int), characters[i as int]);
        }
        if tiles[i].character == character {
            n += 1;
        }
        i += 1;
    }
    assert(characters.take(i as int) == characters);
    n
}

/// Whether two tiles of `tiles` hold the same codeword.
fn has_repeated_codeword(tiles: &Vec<Tile>) -> (repeated: bool)
    ensures
        repeated == !codewords_of(tiles.deep_view()).no_duplicates(),
{
    let ghost codewords = codewords_of(tiles.deep_view());
    let mut j: usize = 0;
    while j < tiles.len()
        invariant
            j <= tiles.len(),
            codewords == codewords_of(tiles.deep_view()),
            forall|a: int, b: int| 0 <= a < b < j ==> codewords[a] != codewords[b],
        decreases tiles.len() - j,
    {
        let mut i: usize = 0;
        while i < j
            invariant
                i <= j < tiles.len(),
                codewords == codewords_of(tiles.deep_view()),
                forall|a: int| 0 <= a < i ==> codewords[a] != codewords[j as int],
            decreases j - i,
        {
            if tiles[i].codeword == tiles[j].codeword {
                assert(codewords[i as int] == codewords[j as int]);
                return true;
            }
            i += 1;
        }
        j += 1;
    }
    false
}

/// Every character is one of the five.
proof fn lemma_occurrences_add_up(characters: Seq<Character>)
    ensures
        occurrences(characters, Character::Bystander) + occurrences(
            characters,
            Character::BlueAgent,
        ) + occurrences(characters, Character::RedAgent) + occurrences(
            characters,
            Character::Assassin,
        ) + occurrences(characters, Character::Unknown) == characters.len(),
    decreases characters.len(),
{
    broadcast use group_multiset_axioms;

    if characters.len() == 0 {
        to_multiset_len(characters);
        lemma_multiset_empty_len(characters.to_multiset());
    } else {
        lemma_occurrences_add_up(characters.drop_last());
        to_multiset_build(characters.drop_last(), characters.last());
        assert(characters == characters.drop_last().push(characters.last()));
    }
}

/// A full cast leaves no room for a character that is not known.
pub proof fn lemma_full_cast_is_known(characters: Seq<Character>, starting_team: Team)
    requires
        is_full_cast(characters, starting_team),
    ensures
        forall|i: int| 0 <= i < characters.len() ==> characters[i] != Character::Unknown,
{
    lemma_occurrences_add_up(characters);
    assert forall|i: int| 0 <= i < characters.len() implies characters[i]
        != Character::Unknown by {
        if characters[i] == Character::Unknown {
            to_multiset_contains(characters, Character::Unknown);
        }
    }
}

/// Dealing a full cast and twenty-five different codewords gives the state of
/// a round.
pub proof fn lemma_dealt_board_is_valid(
    starting_team: Team,
    characters: Seq<Character>,
    codewords: Seq<Seq<char>>,
)
    requires
        is_full_cast(characters, starting_team),
        codewords.len() == TILE_COUNT,
        codewords.no_duplicates(),
    ensures
        (BoardView { tiles: dealt_tiles(characters, codewords), starting_team }).is_valid(),
{
    let tiles = dealt_tiles(characters, codewords);
    assert(characters_of(tiles) == characters.reverse());
    characters.lemma_reverse_to_multiset();
    lemma_full_cast_is_known(characters, starting_team);
}

/// Words drawn from different positions of a list that holds no word twice
/// are words of that list, and no two of them are the same.
proof fn lemma_selection_of_distinct(
    source: Seq<Seq<char>>,
    chosen: Seq<Seq<char>>,
    picks: Seq<int>,
)
    requires
        is_selection(source, chosen, picks),
        source.no_duplicates(),
    ensures
        chosen.no_duplicates(),
        forall|k: int| 0 <= k < chosen.len() ==> source.contains(#[trigger] chosen[k]),
{
    assert forall|a: int, b: int| 0 <= a < chosen.len() && 0 <= b < chosen.len() && a
        != b implies chosen[a] != chosen[b] by {
        assert(source[picks[a]] != source[picks[b]]);
    }
    assert forall|k: int| 0 <= k < chosen.len() implies source.contains(#[trigger] chosen[k]) by {
        assert(source[picks[k]] == chosen[k]);
    }
}

/// As many different words of a list as the list has different words are
/// all the words of the list.
pub proof fn lemma_draw_of_every_word(source: Seq<Seq<char>>, chosen: Seq<Seq<char>>)
    requires
        source.no_duplicates(),
        chosen.no_duplicates(),
        chosen.len() == source.len(),
        forall|k: int| 0 <= k < chosen.len() ==> source.contains(#[trigger] chosen[k]),
    ensures
        chosen.to_set() == source.to_set(),
{
    source.unique_seq_to_set();
    chosen.unique_seq_to_set();
    lemma_subset_equality(chosen.to_set(), source.to_set());
}

} // verus!
