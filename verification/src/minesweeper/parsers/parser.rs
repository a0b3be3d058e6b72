use vstd::prelude::*;

use crate::minesweeper::error::MinesweeperError;
use crate::minesweeper::minesweeper_logic::{Board, FieldState};
use crate::minesweeper::minesweeper_logic;

verus! {

/// One parser variant: the set of version tags it accepts and the four
/// field parsers of the replay grammar. Each implementation carries its
/// own exact contracts; the trait promises what holds of any version.
pub trait Iparser {
    fn supported_versions(&self) -> Vec<&'static str>;

    fn parse_mine_data(&self, data: &str, metadata: &Metadata) -> (r: Result<
        Board,
        MinesweeperError,
    >)
        requires
            metadata.wf(),
        ensures
            r matches Ok(b) ==> b.wf() && b.metadata == *metadata,
    ;

    fn parse_mine_locations(&self, data: &str) -> (r: Result<Vec<(i32, i32)>, MinesweeperError>);

    fn parse_flag_data(&self, data: &str) -> (r: Result<Vec<FlagAction>, MinesweeperError>);

    fn parse_open_data(&self, data: &str) -> (r: Result<Vec<OpenAction>, MinesweeperError>);

    fn parse_meta_data(&self, data: &str) -> (r: Result<Metadata, MinesweeperError>)
        ensures
            r matches Ok(m) ==> m.wf(),
    ;
}

/// The reply of a game-data provider, reduced to the one field the
/// renderer reads.
pub struct ApiData {
    pub game_data: String,
}

/// Board dimensions and the version's time-unit scale in milliseconds.
#[derive(Clone, Copy, Debug, PartialEq, Eq, Structural)]
pub struct Metadata {
    pub x_size: i32,
    pub y_size: i32,
    pub timeunits: i32,
}

impl Metadata {
    /// Dimensions are positive and capped at 1000 cells a side: a
    /// machine limit, so that the canvas's pixel extents fit the
    /// animated container's 16-bit fields and its RGBA byte count
    /// stays within 32-bit-safe arithmetic. The time-unit scale is not
    /// negative.
    pub open spec fn wf(&self) -> bool {
        &&& 1 <= self.x_size <= 1000
        &&& 1 <= self.y_size <= 1000
        &&& 0 <= self.timeunits
    }
}

/// A timed flag event: board coordinate, delta since the previous flag
/// event, the action, and the running prefix sum of the flag deltas.
#[derive(Clone, Copy, Debug, PartialEq, Eq, Structural)]
pub struct FlagAction {
    pub x: i32,
    pub y: i32,
    pub time: i64,
    pub action: Action,
    pub total_time: i64,
}

#[derive(Clone, Copy, Debug, PartialEq, Eq, Structural)]
pub enum Action {
    Place,
    Remove,
    Toggle,
}

/// A timed open event: board coordinate, delta since the previous open
/// event, and the running prefix sum of the open deltas.
#[derive(Clone, Copy, Debug, PartialEq, Eq, Structural)]
pub struct OpenAction {
    pub x: i32,
    pub y: i32,
    pub time: i64,
    pub total_time: i64,
}

#[derive(Clone, Copy, Debug, PartialEq, Eq, Structural)]
pub enum ActionType {
    Open,
    Flag,
}

/// Everything the parser extracts from one replay string.
pub struct ParsedData {
    pub metadata: Metadata,
    pub game_board: Board,
    pub open_data: Vec<OpenAction>,
    pub flag_data: Vec<FlagAction>,
}

impl FlagAction {
    /// The state a cell is put in by this flag action: Place flags it,
    /// Remove closes it, Toggle marks it unsure — each unconditionally.
    pub open spec fn target_state(&self) -> FieldState {
        match self.action {
            Action::Place => FieldState::Flagged,
            Action::Remove => FieldState::Closed,
            Action::Toggle => FieldState::UnsureFlagged,
        }
    }

    /// Applies this flag action to the board: the cell's state becomes
    /// `target_state`, the cell is marked dirty, and nothing else of the
    /// board changes.
    pub fn perform_action(&self, board: &mut Board)
        requires
            old(board).wf(),
            0 <= self.x < old(board).metadata.x_size,
            0 <= self.y < old(board).metadata.y_size,
        ensures
            final(board).metadata == old(board).metadata,
            final(board).open_fields == old(board).open_fields,
            final(board).mine_count == old(board).mine_count,
            final(board).total_fields == old(board).total_fields,
            final(board).grid() == old(board).grid().update(
                self.y as int,
                old(board).grid()[self.y as int].update(
                    self.x as int,
                    minesweeper_logic::with_state(
                        old(board).grid()[self.y as int][self.x as int],
                        self.target_state(),
                    ),
                ),
            ),
            final(board).marks() == old(board).marks().update(
                self.y as int,
                old(board).marks()[self.y as int].update(self.x as int, true),
            ),
            final(board).wf(),
    {
        let ghost g0 = board.grid();
        let uy = self.y as usize;
        let ux = self.x as usize;
        let cell = board.fields[uy][ux];
        let state = match self.action {
            Action::Place => FieldState::Flagged,
            Action::Remove => FieldState::Closed,
            Action::Toggle => FieldState::UnsureFlagged,
        };
        board.fields[uy][ux] = Field { value: cell.value, field_state: state, mine: cell.mine };
        proof {
            assert(old(board).marks()[uy as int] == board.changed_fields@[uy as int]@);
        }
        board.changed_fields[uy][ux] = true;
        proof {
            assert(board.grid() =~~= g0.update(
                self.y as int,
                g0[self.y as int].update(
                    self.x as int,
                    minesweeper_logic::with_state(g0[self.y as int][self.x as int], self.target_state()),
                ),
            ));
            assert(board.marks() =~~= old(board).marks().update(
                self.y as int,
                old(board).marks()[self.y as int].update(self.x as int, true),
            ));
            minesweeper_logic::lemma_state_change_keeps_wf(
                *old(board),
                *board,
                self.x as int,
                self.y as int,
                self.target_state(),
            );
        }
    }
}

} // verus!

use crate::minesweeper::minesweeper_logic::Field;
