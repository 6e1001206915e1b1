use vstd::prelude::*;
use crate::board::Board;
use crate::position::Position;

verus! {

/// The size of a board and how many gem types it draws from.
#[derive(Clone, Copy, Debug)]
pub struct Match3Config {
    /// The number of different gem types the board can spawn.
    pub gem_types: u32,
    /// The board's (width, height).
    pub board_dimensions: (u32, u32),
}

impl Default for Match3Config {
    fn default() -> (r: Match3Config)
        ensures
            r.gem_types == 5,
            r.board_dimensions == (10u32, 10u32),
    {
        Match3Config { gem_types: 5, board_dimensions: (10, 10) }
    }
}

/// Why a configuration was refused.
#[derive(Clone, Copy, Debug, PartialEq, Eq, Structural)]
pub enum ConfigError {
    /// Fewer than three gem types.
    TooFewGemTypes,
    /// A board without cells.
    EmptyBoard,
}

/// The palette `0, 1, ..., n - 1`.
pub open spec fn palette(n: u32) -> Seq<u32> {
    Seq::new(n as nat, |i: int| i as u32)
}

impl Board {
    /// A board of the configured size, each cell given a type drawn at random
    /// from `0 .. gem_types`. It may hold matches: `clear_matches` settles it.
    pub fn new_random(config: &Match3Config) -> (r: Result<Board, ConfigError>)
        ensures
            config.gem_types < 3 ==> r == Err::<Board, ConfigError>(ConfigError::TooFewGemTypes),
            config.gem_types >= 3 && (config.board_dimensions.0 == 0 || config.board_dimensions.1 == 0)
                ==> r == Err::<Board, ConfigError>(ConfigError::EmptyBoard),
            r matches Ok(b) ==> {
                &&& b@.full()
                &&& b@.width == config.board_dimensions.0
                &&& b@.height == config.board_dimensions.1
                &&& b@.types == palette(config.gem_types)
                &&& forall|k: (u32, u32)| #[trigger] b@.cells.contains_key(k) ==> b@.cells[k] < config.gem_types
            },
            r is Ok <==> config.gem_types >= 3 && config.board_dimensions.0 > 0 && config.board_dimensions.1 > 0,
    {
        if config.gem_types < 3 {
            return Err(ConfigError::TooFewGemTypes);
        }
        let (width, height) = config.board_dimensions;
        if width == 0 || height == 0 {
            return Err(ConfigError::EmptyBoard);
        }
        let mut types: Vec<u32> = Vec::new();
        let mut t: u32 = 0;
        while t < config.gem_types
            invariant
                t <= config.gem_types,
                types@ =~= palette(t),
            decreases config.gem_types - t,
        {
            types.push(t);
            t += 1;
            assert(types@ =~= palette(t));
        }
        let mut board = Board::empty(width, height, types);
        let ghost empty = board@;
        let spawned = board.fill();
        proof {
            assert forall|k: (u32, u32)| #[trigger] board@.cells.contains_key(k) implies board@.cells[k] < config.gem_types by {
                let x = k.0 as int;
                let y = k.1 as int;
                assert((x as u32, y as u32) == k);
                assert(empty.in_bounds(x, y));
                assert(!empty.holds(x, y));
                assert(spawned@.contains((Position { x: k.0, y: k.1 }, board@.cells[k])));
                let i = choose|i: int| 0 <= i < spawned@.len() && spawned@[i] == (Position { x: k.0, y: k.1 }, board@.cells[k]);
                assert(empty.types.contains(spawned@[i].1));
                let j = choose|j: int| 0 <= j < empty.types.len() && empty.types[j] == spawned@[i].1;
                assert(palette(config.gem_types)[j] == j as u32);
            }
        }
        Ok(board)
    }
}

} // verus!
