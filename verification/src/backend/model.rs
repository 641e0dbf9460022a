//! The board as a mathematical value, and the rules of the game as
//! functions on it.

use vstd::prelude::*;

use super::blocks::{blocks_satisfied, BlockView};
use super::{GameState, MAXIMUM_STEP_NUMBER};
use crate::utils_backend::{
    AgentID, Coordinate, Direction, GoalType, HitResult, Index, PlayerInput, SlideType, StatChange,
};

verus! {

/// A tracked statistic: its name, where it stands, and the goal it is held
/// against.
pub struct StatView {
    pub name: Seq<char>,
    pub value: u8,
    pub goal: GoalType,
}

/// Whether a statistic named `name` is among `stats`.
pub open spec fn is_tracked(stats: Seq<StatView>, name: Seq<char>) -> bool {
    exists|i: int| 0 <= i < stats.len() && #[trigger] stats[i].name == name
}

/// The place of the statistic named `name` among `stats`, where it is
/// tracked.
pub open spec fn stat_index(stats: Seq<StatView>, name: Seq<char>) -> int {
    choose|i: int| 0 <= i < stats.len() && #[trigger] stats[i].name == name
}

/// Whether no two of `stats` share a name.
pub open spec fn names_distinct(stats: Seq<StatView>) -> bool {
    forall|i: int, j: int|
        0 <= i < stats.len() && 0 <= j < stats.len() && #[trigger] stats[i].name
            == #[trigger] stats[j].name ==> i == j
}

/// Whether `change` is addressed to a tracked statistic and keeps it within
/// the range of `u8`.
pub open spec fn change_fits(stats: Seq<StatView>, change: StatChange) -> bool {
    is_tracked(stats, change.name()) && change.fits(stats[stat_index(stats, change.name())].value)
}

/// The statistics after `change`.
pub open spec fn apply_change(stats: Seq<StatView>, change: StatChange) -> Seq<StatView> {
    if is_tracked(stats, change.name()) {
        let i = stat_index(stats, change.name());
        stats.update(i, StatView { value: change.apply(stats[i].value), ..stats[i] })
    } else {
        stats
    }
}

/// Whether each of `changes`, made in order, is addressed to a tracked
/// statistic and keeps it within the range of `u8`.
pub open spec fn changes_fit(stats: Seq<StatView>, changes: Seq<StatChange>) -> bool
    decreases changes.len(),
{
    if changes.len() == 0 {
        true
    } else {
        change_fits(stats, changes[0]) && changes_fit(
            apply_change(stats, changes[0]),
            changes.drop_first(),
        )
    }
}

/// The statistics after `changes`, made in order.
pub open spec fn apply_changes(stats: Seq<StatView>, changes: Seq<StatChange>) -> Seq<StatView>
    decreases changes.len(),
{
    if changes.len() == 0 {
        stats
    } else {
        apply_changes(apply_change(stats, changes[0]), changes.drop_first())
    }
}

/// Whether every statistic meets its goal.
pub open spec fn all_goals_met(stats: Seq<StatView>) -> bool {
    forall|i: int| 0 <= i < stats.len() ==> (#[trigger] stats[i]).goal.met_by(stats[i].value)
}

/// The agents among the first `positions.len()` that are on the board.
pub open spec fn agents_on_board(positions: Seq<Coordinate>) -> Set<AgentID> {
    Set::new(|a: AgentID| a < positions.len() && positions[a as int] != Coordinate::off_board())
}

/// The cells that hold a block which asks for occupants and has them.
pub open spec fn counted_cells(cells: Seq<BlockView>) -> Set<int> {
    Set::new(|i: int| 0 <= i < cells.len() && cells[i].is_counted())
}

/// The cells that hold a block which asks for occupants and lacks some.
pub open spec fn pending_cells(cells: Seq<BlockView>) -> Set<int> {
    Set::new(|i: int| 0 <= i < cells.len() && cells[i].is_pending())
}

/// A board: its grid of blocks, where its agents are, and how the game
/// stands.
pub struct BoardView {
    pub x_size: Index,
    pub y_size: Index,
    /// The blocks, the one at `(x, y)` in place `x * y_size + y`.
    pub cells: Seq<BlockView>,
    /// Where each agent is; `Coordinate::off_board()` for an ejected one.
    pub positions: Seq<Coordinate>,
    /// The number of agents still on the board.
    pub alive: u8,
    /// The game is lost once fewer agents than this are on the board.
    pub must_finish: u8,
    pub stats: Seq<StatView>,
    pub state: GameState,
}

impl BoardView {
    pub open spec fn in_bounds(self, c: Coordinate) -> bool {
        0 <= c.x < self.x_size && 0 <= c.y < self.y_size
    }

    /// The place of the cell at `c` in `cells`.
    pub open spec fn index(self, c: Coordinate) -> int {
        c.x * self.y_size + c.y
    }

    pub open spec fn cell(self, c: Coordinate) -> BlockView {
        self.cells[self.index(c)]
    }

    /// The grid is complete: there is one block for every coordinate in range.
    pub open spec fn grid_complete(self) -> bool {
        &&& 0 <= self.x_size
        &&& 0 <= self.y_size
        &&& self.cells.len() == self.x_size * self.y_size
    }

    /// The table of positions and the occupants of the cells agree: an agent
    /// is off the board exactly if no cell lists it, and otherwise the one
    /// cell that lists it is the cell at its position.
    pub open spec fn positions_agree(self) -> bool {
        &&& forall|a: int|
            0 <= a < self.positions.len() ==> #[trigger] self.positions[a]
                == Coordinate::off_board() || self.in_bounds(self.positions[a])
        &&& forall|a: AgentID|
            a < self.positions.len() && self.in_bounds(#[trigger] self.positions[a as int])
                ==> self.cell(self.positions[a as int]).agents().contains(a)
        &&& forall|i: int, a: AgentID|
            0 <= i < self.cells.len() && #[trigger] self.cells[i].agents().contains(a) ==> {
                &&& a < self.positions.len()
                &&& self.in_bounds(self.positions[a as int])
                &&& self.index(self.positions[a as int]) == i
            }
    }

    /// The count of agents on the board is kept right.
    pub open spec fn alive_counted(self) -> bool {
        &&& self.positions.len() <= u8::MAX
        &&& self.alive == agents_on_board(self.positions).len()
    }

    /// The statistic of satisfied blocks has room for every block that may
    /// yet be satisfied, and covers every block that may yet cease to be.
    pub open spec fn satisfied_in_range(self) -> bool {
        &&& names_distinct(self.stats)
        &&& (exists|i: int| 0 <= i < self.cells.len() && #[trigger] self.cells[i].is_goal())
            ==> is_tracked(self.stats, blocks_satisfied())
        &&& is_tracked(self.stats, blocks_satisfied()) ==> {
            let satisfied = self.stats[stat_index(self.stats, blocks_satisfied())].value;
            &&& counted_cells(self.cells).len() <= satisfied
            &&& satisfied + pending_cells(self.cells).len() <= u8::MAX
        }
    }

    /// What holds of a board at all times.
    pub open spec fn inv(self) -> bool {
        &&& self.grid_complete()
        &&& self.positions_agree()
        &&& self.alive_counted()
        &&& self.satisfied_in_range()
    }
}

impl BoardView {
    /// The board with the game lost.
    pub open spec fn lost(self) -> BoardView {
        BoardView { state: GameState::Lost, ..self }
    }

    /// The board after the victory conditions have been looked at: a lost
    /// game stays lost; otherwise the game is won exactly if every statistic
    /// meets its goal.
    pub open spec fn after_check(self) -> BoardView {
        let state = if self.state == GameState::Lost {
            GameState::Lost
        } else if all_goals_met(self.stats) {
            GameState::Won
        } else {
            GameState::Running
        };
        BoardView { state, ..self }
    }

    /// The board after `changes` to its statistics.
    pub open spec fn updated(self, changes: Seq<StatChange>) -> BoardView {
        BoardView { stats: apply_changes(self.stats, changes), ..self }
    }

    /// Whether `agent` can step in `direction`: the cell there is in range
    /// and lets agents in.
    pub open spec fn can_move(self, agent: AgentID, direction: Direction) -> bool {
        let target = self.positions[agent as int].neighbour(direction);
        self.in_bounds(target) && self.cell(target).can_enter(direction)
    }

    /// The board once `agent` has left the cell at `from`.
    pub open spec fn with_removed(self, from: Coordinate, agent: AgentID) -> BoardView {
        BoardView {
            cells: self.cells.update(self.index(from), self.cell(from).removed(agent)),
            stats: apply_changes(self.stats, self.cell(from).remove_update(agent)),
            ..self
        }
    }

    /// The board once `agent` has entered the cell at place `at`.
    pub open spec fn with_entered(self, at: int, agent: AgentID) -> BoardView {
        BoardView {
            cells: self.cells.update(at, self.cells[at].entered(agent)),
            stats: apply_changes(self.stats, self.cells[at].enter_update(agent)),
            ..self
        }
    }

    /// The board after `agent` has been asked to step in `direction`: where
    /// it can, it leaves its cell and enters the next; the victory conditions
    /// are looked at either way.
    pub open spec fn moved(self, agent: AgentID, direction: Direction) -> BoardView {
        if self.can_move(agent, direction) {
            let from = self.positions[agent as int];
            let to = from.neighbour(direction);
            let left = self.with_removed(from, agent);
            let entered = left.with_entered(self.index(to), agent);
            BoardView {
                positions: self.positions.update(agent as int, to),
                ..entered
            }.after_check()
        } else {
            self.after_check()
        }
    }

    /// The board once those of `residents` below `upto` have entered the
    /// cell at place `at`, in ascending order.
    pub open spec fn settled(self, at: int, residents: Set<AgentID>, upto: nat) -> BoardView
        decreases upto,
    {
        if upto == 0 {
            self
        } else {
            let before = self.settled(at, residents, (upto - 1) as nat);
            let agent = (upto - 1) as AgentID;
            if residents.contains(agent) {
                before.with_entered(at, agent)
            } else {
                before
            }
        }
    }

    /// The positions once the agents in `occupants` have been taken to `to`.
    pub open spec fn carried(self, occupants: Set<AgentID>, to: Coordinate) -> Seq<Coordinate> {
        Seq::new(
            self.positions.len(),
            |a: int|
                if occupants.contains(a as AgentID) {
                    to
                } else {
                    self.positions[a]
                },
        )
    }

    /// The board once the block at `start` has been taken to `end`.
    ///
    /// Out of range, the block is ejected: its occupants are off the board
    /// from then on, and the game is lost if fewer agents are left than must
    /// finish. In range, the block takes the place of the one at `end`, whose
    /// occupants enter it. Either way air is left at `start`.
    pub open spec fn relocated(self, start: Coordinate, end: Coordinate) -> BoardView {
        let occupants = self.cell(start).agents();
        if !self.in_bounds(end) {
            let alive = (self.alive - occupants.len()) as u8;
            BoardView {
                cells: self.cells.update(self.index(start), BlockView::Air),
                positions: self.carried(occupants, Coordinate::off_board()),
                alive,
                state: if alive < self.must_finish {
                    GameState::Lost
                } else {
                    self.state
                },
                ..self
            }
        } else {
            self.displaced(start, end).settled(
                self.index(end),
                self.cell(end).agents(),
                self.positions.len(),
            )
        }
    }

    /// The board once the block at `start` has taken the place of the one at
    /// `end` and air has been left at `start`, before those who stood at `end`
    /// enter the block.
    pub open spec fn displaced(self, start: Coordinate, end: Coordinate) -> BoardView {
        BoardView {
            cells: self.cells.update(self.index(start), BlockView::Air).update(
                self.index(end),
                self.cell(start),
            ),
            positions: self.carried(self.cell(start).agents(), end),
            ..self
        }
    }

    /// The board at the end of a step of a slide that went no further: past
    /// the most steps the game is lost, otherwise the victory conditions are
    /// looked at.
    pub open spec fn after_step(self, steps: nat) -> BoardView {
        if steps > MAXIMUM_STEP_NUMBER {
            self.lost()
        } else {
            self.after_check()
        }
    }

    /// The board at the end of a slide of the block at `current` in
    /// `direction`, of which `steps` steps have been taken.
    ///
    /// Each step looks at the next cell. Out of range, the block is ejected
    /// and the slide ends. A cell that stops the block ends the slide. A cell
    /// that offers no resistance is replaced by the block, and one that sends
    /// the block elsewhere has it taken there; the slide goes on from the new
    /// place. After every step the victory conditions are looked at, but after
    /// more than `MAXIMUM_STEP_NUMBER` steps the game is lost and the slide
    /// ends.
    pub open spec fn slide_on(self, current: Coordinate, direction: Direction, steps: nat) -> BoardView
        decreases MAXIMUM_STEP_NUMBER + 1 - steps, 0nat,
    {
        if steps > MAXIMUM_STEP_NUMBER {
            self
        } else {
            let target = current.neighbour(direction);
            if !self.in_bounds(target) {
                self.relocated(current, Coordinate::off_board()).after_step(steps + 1)
            } else {
                match self.cell(target).hit(direction) {
                    HitResult::Stop => self.after_step(steps + 1),
                    HitResult::NoResistance => self.relocated(current, target).slide_after(
                        target,
                        direction,
                        steps + 1,
                    ),
                    HitResult::MoveTo(place) => self.relocated(current, place).slide_after(
                        place,
                        direction,
                        steps + 1,
                    ),
                }
            }
        }
    }

    /// The rest of a slide after a step that took the block to `current`.
    pub open spec fn slide_after(self, current: Coordinate, direction: Direction, steps: nat) -> BoardView
        decreases MAXIMUM_STEP_NUMBER + 1 - steps, 1nat,
    {
        if steps > MAXIMUM_STEP_NUMBER {
            self.lost()
        } else if !self.in_bounds(current) {
            self.after_check()
        } else {
            self.after_check().slide_on(current, direction, steps)
        }
    }

    /// The board after `agent` has been asked to slide in `direction`: the
    /// block it stands on slides, if it is one that does.
    pub open spec fn slid(self, agent: AgentID, direction: Direction) -> BoardView {
        let start = self.positions[agent as int];
        if self.cell(start).slide(direction) == SlideType::NoSlide {
            self
        } else {
            self.slide_on(start, direction, 0)
        }
    }

    /// Whether `input` may be given to this board: the game is running and
    /// the agent exists, and for a slide it is on the board.
    pub open spec fn allows(self, input: PlayerInput) -> bool {
        &&& self.state == GameState::Running
        &&& input.agent() < self.positions.len()
        &&& input is Slide ==> self.in_bounds(self.positions[input.agent() as int])
    }

    /// The board after `input`.
    pub open spec fn step(self, input: PlayerInput) -> BoardView {
        match input {
            PlayerInput::Move(agent, direction) => self.moved(agent, direction),
            PlayerInput::Slide(agent, direction) => self.slid(agent, direction),
        }
    }

    /// The board after the inputs of `log`, in order.
    pub open spec fn replay(self, log: Seq<PlayerInput>) -> BoardView
        decreases log.len(),
    {
        if log.len() == 0 {
            self
        } else {
            self.replay(log.drop_last()).step(log.last())
        }
    }

    /// Whether each input of `log` may be given to the board that the inputs
    /// before it lead to.
    pub open spec fn allows_all(self, log: Seq<PlayerInput>) -> bool
        decreases log.len(),
    {
        log.len() == 0 || {
            &&& self.allows_all(log.drop_last())
            &&& self.replay(log.drop_last()).allows(log.last())
        }
    }
}

/// The cells that hold a block which asks for occupants.
pub open spec fn goal_cells(cells: Seq<BlockView>) -> Set<int> {
    Set::new(|i: int| 0 <= i < cells.len() && cells[i].is_goal())
}

/// What a board starts from: its grid of blocks without occupants, where
/// its agents start, how many of them must finish, and the goals.
pub struct LevelView {
    pub x_size: Index,
    pub y_size: Index,
    /// The blocks, the one at `(x, y)` in place `x * y_size + y`.
    pub blocks: Seq<BlockView>,
    /// Where each agent starts.
    pub starts: Seq<Coordinate>,
    pub must_finish: u8,
    /// The tracked statistics by name, each with its goal.
    pub goals: Seq<(Seq<char>, GoalType)>,
}

impl LevelView {
    pub open spec fn in_bounds(self, c: Coordinate) -> bool {
        0 <= c.x < self.x_size && 0 <= c.y < self.y_size
    }

    pub open spec fn index(self, c: Coordinate) -> int {
        c.x * self.y_size + c.y
    }

    /// Whether a statistic named `name` has a goal.
    pub open spec fn tracks(self, name: Seq<char>) -> bool {
        exists|j: int| 0 <= j < self.goals.len() && (#[trigger] self.goals[j]).0 == name
    }

    /// Whether a board can start from this level.
    pub open spec fn valid(self) -> bool {
        &&& 0 <= self.x_size
        &&& 0 <= self.y_size
        &&& self.blocks.len() == self.x_size * self.y_size
        &&& self.starts.len() <= u8::MAX
        &&& forall|a: int|
            0 <= a < self.starts.len() ==> self.in_bounds(#[trigger] self.starts[a])
                && self.blocks[self.index(self.starts[a])].can_enter(Direction::Stay)
        &&& forall|i: int, j: int|
            0 <= i < self.goals.len() && 0 <= j < self.goals.len() && (#[trigger] self.goals[i]).0
                == (#[trigger] self.goals[j]).0 ==> i == j
        &&& goal_cells(self.blocks).len() <= u8::MAX
        &&& goal_cells(self.blocks).len() > 0 ==> self.tracks(blocks_satisfied())
    }

    /// Those of the first `upto` agents that start in the cell at place `i`.
    pub open spec fn starters(self, i: int, upto: nat) -> Set<AgentID> {
        Set::new(
            |a: AgentID| a < upto && a < self.starts.len() && self.index(self.starts[a as int]) == i,
        )
    }

    /// The cells once the first `upto` agents have entered where they start.
    pub open spec fn cells_with(self, upto: nat) -> Seq<BlockView> {
        Seq::new(self.blocks.len(), |i: int| self.blocks[i].occupied_by(self.starters(i, upto)))
    }

    /// The statistics of a board with the given cells on which nothing has
    /// happened yet: as many satisfied blocks as there are, and nothing else.
    pub open spec fn stats_for(self, cells: Seq<BlockView>) -> Seq<StatView> {
        Seq::new(
            self.goals.len(),
            |j: int|
                StatView {
                    name: self.goals[j].0,
                    value: if self.goals[j].0 == blocks_satisfied() {
                        counted_cells(cells).len() as u8
                    } else {
                        0
                    },
                    goal: self.goals[j].1,
                },
        )
    }

    /// The board once the first `upto` agents have entered where they start.
    pub open spec fn start_with(self, upto: nat) -> BoardView {
        BoardView {
            x_size: self.x_size,
            y_size: self.y_size,
            cells: self.cells_with(upto),
            positions: self.starts,
            alive: self.starts.len() as u8,
            must_finish: self.must_finish,
            stats: self.stats_for(self.cells_with(upto)),
            state: GameState::Running,
        }
    }

    /// The board at the start of the level: every agent stands where it
    /// starts, the game is running, and nothing has been counted but the
    /// blocks that the agents satisfy by standing there.
    pub open spec fn start(self) -> BoardView {
        self.start_with(self.starts.len())
    }
}

/// A coordinate in range has its place among the cells.
pub proof fn lemma_index_in_range(board: BoardView, c: Coordinate)
    requires
        board.grid_complete(),
        board.in_bounds(c),
    ensures
        0 <= board.index(c) < board.cells.len(),
{
    let x = c.x as int;
    let y = c.y as int;
    let xs = board.x_size as int;
    let ys = board.y_size as int;
    assert(x * ys + y < xs * ys) by (nonlinear_arith)
        requires
            0 <= x < xs,
            0 <= y < ys,
    ;
    assert(0 <= x * ys + y) by (nonlinear_arith)
        requires
            0 <= x,
            0 <= y,
            0 <= ys,
    ;
}

/// Two coordinates in range with the same place are the same.
pub proof fn lemma_index_injective(board: BoardView, c: Coordinate, d: Coordinate)
    requires
        board.in_bounds(c),
        board.in_bounds(d),
        board.index(c) == board.index(d),
    ensures
        c == d,
{
    let ys = board.y_size as int;
    let (cx, cy, dx, dy) = (c.x as int, c.y as int, d.x as int, d.y as int);
    assert(cx == dx) by (nonlinear_arith)
        requires
            0 <= cy < ys,
            0 <= dy < ys,
            cx * ys + cy == dx * ys + dy,
    ;
}

/// The sets of cells that are told apart by what their blocks ask for are
/// finite.
pub proof fn lemma_cell_sets_finite(cells: Seq<BlockView>)
    ensures
        counted_cells(cells).finite(),
        pending_cells(cells).finite(),
        goal_cells(cells).finite(),
        counted_cells(cells).disjoint(pending_cells(cells)),
        counted_cells(cells) + pending_cells(cells) == goal_cells(cells),
        counted_cells(cells).len() + pending_cells(cells).len() == goal_cells(cells).len(),
{
    let all = vstd::set_lib::set_int_range(0, cells.len() as int);
    vstd::set_lib::lemma_int_range(0, cells.len() as int);
    assert(counted_cells(cells).subset_of(all));
    assert(pending_cells(cells).subset_of(all));
    assert(goal_cells(cells).subset_of(all));
    vstd::set_lib::lemma_set_subset_finite(all, counted_cells(cells));
    vstd::set_lib::lemma_set_subset_finite(all, pending_cells(cells));
    vstd::set_lib::lemma_set_subset_finite(all, goal_cells(cells));
    assert forall|i: int| 0 <= i < cells.len() implies (#[trigger] cells[i].is_goal() <==> (
        cells[i].is_counted() || cells[i].is_pending())) && !(cells[i].is_counted()
        && cells[i].is_pending()) by {}
    assert(counted_cells(cells) + pending_cells(cells) =~= goal_cells(cells));
    vstd::set_lib::lemma_set_disjoint_lens(counted_cells(cells), pending_cells(cells));
}

/// What replacing the block of one cell does to the sets of cells that are
/// told apart by what their blocks ask for.
pub proof fn lemma_cell_replaced(cells: Seq<BlockView>, i: int, block: BlockView)
    requires
        0 <= i < cells.len(),
    ensures
        counted_cells(cells.update(i, block)) == if block.is_counted() {
            counted_cells(cells).insert(i)
        } else {
            counted_cells(cells).remove(i)
        },
        pending_cells(cells.update(i, block)) == if block.is_pending() {
            pending_cells(cells).insert(i)
        } else {
            pending_cells(cells).remove(i)
        },
        goal_cells(cells.update(i, block)) == if block.is_goal() {
            goal_cells(cells).insert(i)
        } else {
            goal_cells(cells).remove(i)
        },
{
    let after = cells.update(i, block);
    assert(counted_cells(after) =~= if block.is_counted() {
        counted_cells(cells).insert(i)
    } else {
        counted_cells(cells).remove(i)
    });
    assert(pending_cells(after) =~= if block.is_pending() {
        pending_cells(cells).insert(i)
    } else {
        pending_cells(cells).remove(i)
    });
    assert(goal_cells(after) =~= if block.is_goal() {
        goal_cells(cells).insert(i)
    } else {
        goal_cells(cells).remove(i)
    });
}

/// The statistics after the one change of `seq![change]`, and after none.
pub proof fn lemma_apply_one(stats: Seq<StatView>, change: StatChange)
    ensures
        apply_changes(stats, seq![change]) == apply_change(stats, change),
        changes_fit(stats, seq![change]) == change_fits(stats, change),
        apply_changes(stats, Seq::empty()) == stats,
        changes_fit(stats, Seq::empty()),
{
    let one = seq![change];
    assert(one.drop_first() =~= Seq::<StatChange>::empty());
    assert(one[0] == change);
    reveal_with_fuel(apply_changes, 2);
    reveal_with_fuel(changes_fit, 2);
}

/// A change keeps the names and goals of the statistics.
pub proof fn lemma_apply_change_keeps_names(stats: Seq<StatView>, change: StatChange)
    requires
        names_distinct(stats),
    ensures
        names_distinct(apply_change(stats, change)),
        apply_change(stats, change).len() == stats.len(),
        forall|j: int|
            0 <= j < stats.len() ==> (#[trigger] apply_change(stats, change)[j]).name
                == stats[j].name && apply_change(stats, change)[j].goal == stats[j].goal,
        forall|name: Seq<char>|
            is_tracked(apply_change(stats, change), name) == is_tracked(stats, name),
        forall|name: Seq<char>|
            is_tracked(stats, name) ==> stat_index(apply_change(stats, change), name)
                == stat_index(stats, name),
        forall|j: int|
            0 <= j < stats.len() && stats[j].name != change.name() ==> (#[trigger] apply_change(
                stats,
                change,
            )[j]) == stats[j],
{
    let after = apply_change(stats, change);
    assert forall|a: int, b: int|
        0 <= a < after.len() && 0 <= b < after.len() && #[trigger] after[a].name
            == #[trigger] after[b].name implies a == b by {
        assert(stats[a].name == stats[b].name);
    }
    assert forall|name: Seq<char>| is_tracked(after, name) == is_tracked(stats, name) by {
        if is_tracked(after, name) {
            let i = stat_index(after, name);
            assert(stats[i].name == name);
        }
        if is_tracked(stats, name) {
            let i = stat_index(stats, name);
            assert(after[i].name == name);
        }
    }
    assert forall|name: Seq<char>| is_tracked(stats, name) implies stat_index(after, name)
        == stat_index(stats, name) by {
        let i = stat_index(stats, name);
        assert(after[i].name == name);
        let j = stat_index(after, name);
        assert(after[j].name == after[i].name);
    }
    if is_tracked(stats, change.name()) {
        let i = stat_index(stats, change.name());
        assert forall|j: int| 0 <= j < stats.len() && stats[j].name != change.name() implies (
        #[trigger] after[j]) == stats[j] by {}
    }
}

impl BoardView {
    /// The count of satisfied blocks, where it is tracked.
    pub open spec fn satisfied(self) -> u8 {
        self.stats[stat_index(self.stats, blocks_satisfied())].value
    }

    /// An agent can leave a cell: what that reports can be made to the
    /// statistics, and the grid and the statistics stay in order.
    pub proof fn lemma_with_removed(self, from: Coordinate, agent: AgentID)
        requires
            self.grid_complete(),
            self.satisfied_in_range(),
            self.in_bounds(from),
        ensures
            changes_fit(self.stats, self.cell(from).remove_update(agent)),
            self.with_removed(from, agent).grid_complete(),
            self.with_removed(from, agent).satisfied_in_range(),
    {
        let i = self.index(from);
        lemma_index_in_range(self, from);
        let block = self.cell(from);
        let changes = block.remove_update(agent);
        let after = self.with_removed(from, agent);
        super::blocks::lemma_agents_finite(block.agents());
        lemma_cell_sets_finite(self.cells);
        lemma_cell_sets_finite(after.cells);
        lemma_cell_replaced(self.cells, i, block.removed(agent));
        assert(self.cells[i].is_goal() == after.cells[i].is_goal());
        assert forall|j: int| 0 <= j < self.cells.len() implies (#[trigger] after.cells[j]).is_goal()
            == self.cells[j].is_goal() by {}
        if changes.len() > 0 {
            let change = StatChange::Decrease(blocks_satisfied(), 1);
            assert(changes =~= seq![change]);
            lemma_apply_one(self.stats, change);
            lemma_apply_change_keeps_names(self.stats, change);
            assert(block.is_counted());
            assert(self.cells[i].is_goal());
            assert(counted_cells(self.cells).contains(i));
            assert(!block.removed(agent).is_counted());
            assert(block.removed(agent).is_pending());
            assert(!pending_cells(self.cells).contains(i));
            assert(after.stats == apply_change(self.stats, change));
            let place = stat_index(self.stats, blocks_satisfied());
            assert(after.stats[place].value == self.satisfied() - 1);
        } else {
            assert(changes =~= Seq::<StatChange>::empty());
            lemma_apply_one(self.stats, StatChange::Decrease(blocks_satisfied(), 1));
            assert(after.stats == self.stats);
            assert(block.removed(agent).is_counted() == block.is_counted());
            assert(block.removed(agent).is_pending() == block.is_pending());
            if block.is_counted() {
                assert(counted_cells(self.cells).contains(i));
                assert(counted_cells(after.cells) =~= counted_cells(self.cells));
            } else {
                assert(!counted_cells(self.cells).contains(i));
                assert(counted_cells(after.cells) =~= counted_cells(self.cells));
            }
            if block.is_pending() {
                assert(pending_cells(self.cells).contains(i));
                assert(pending_cells(after.cells) =~= pending_cells(self.cells));
            } else {
                assert(!pending_cells(self.cells).contains(i));
                assert(pending_cells(after.cells) =~= pending_cells(self.cells));
            }
        }
        if exists|j: int| 0 <= j < after.cells.len() && #[trigger] after.cells[j].is_goal() {
            let j = choose|j: int| 0 <= j < after.cells.len() && #[trigger] after.cells[j].is_goal();
            assert(self.cells[j].is_goal());
        }
    }

    /// An agent can enter a cell that does not list it: what that reports
    /// can be made to the statistics, and the grid and the statistics stay in
    /// order.
    pub proof fn lemma_with_entered(self, at: int, agent: AgentID)
        requires
            self.grid_complete(),
            self.satisfied_in_range(),
            0 <= at < self.cells.len(),
            !self.cells[at].agents().contains(agent),
        ensures
            changes_fit(self.stats, self.cells[at].enter_update(agent)),
            self.with_entered(at, agent).grid_complete(),
            self.with_entered(at, agent).satisfied_in_range(),
    {
        let block = self.cells[at];
        let changes = block.enter_update(agent);
        let after = self.with_entered(at, agent);
        super::blocks::lemma_agents_finite(block.agents());
        lemma_cell_sets_finite(self.cells);
        lemma_cell_sets_finite(after.cells);
        lemma_cell_replaced(self.cells, at, block.entered(agent));
        assert forall|j: int| 0 <= j < self.cells.len() implies (#[trigger] after.cells[j]).is_goal()
            == self.cells[j].is_goal() by {}
        if changes.len() > 0 {
            let change = StatChange::Increase(blocks_satisfied(), 1);
            assert(changes =~= seq![change]);
            lemma_apply_one(self.stats, change);
            lemma_apply_change_keeps_names(self.stats, change);
            assert(block.is_pending());
            assert(self.cells[at].is_goal());
            assert(pending_cells(self.cells).contains(at));
            assert(block.entered(agent).is_counted());
            assert(!block.entered(agent).is_pending());
            assert(!counted_cells(self.cells).contains(at));
            assert(after.stats == apply_change(self.stats, change));
            let place = stat_index(self.stats, blocks_satisfied());
            assert(after.stats[place].value == self.satisfied() + 1);
        } else {
            assert(changes =~= Seq::<StatChange>::empty());
            lemma_apply_one(self.stats, StatChange::Increase(blocks_satisfied(), 1));
            assert(after.stats == self.stats);
            assert(block.entered(agent).is_counted() == block.is_counted());
            assert(block.entered(agent).is_pending() == block.is_pending());
            if block.is_counted() {
                assert(counted_cells(self.cells).contains(at));
                assert(counted_cells(after.cells) =~= counted_cells(self.cells));
            } else {
                assert(!counted_cells(self.cells).contains(at));
                assert(counted_cells(after.cells) =~= counted_cells(self.cells));
            }
            if block.is_pending() {
                assert(pending_cells(self.cells).contains(at));
                assert(pending_cells(after.cells) =~= pending_cells(self.cells));
            } else {
                assert(!pending_cells(self.cells).contains(at));
                assert(pending_cells(after.cells) =~= pending_cells(self.cells));
            }
        }
        if exists|j: int| 0 <= j < after.cells.len() && #[trigger] after.cells[j].is_goal() {
            let j = choose|j: int| 0 <= j < after.cells.len() && #[trigger] after.cells[j].is_goal();
            assert(self.cells[j].is_goal());
        }
    }
}

impl BoardView {
    /// What the agreement of positions and occupants comes to for one
    /// agent: it is off the board exactly if no cell lists it, and otherwise
    /// the cell at its position is the one cell that lists it.
    pub proof fn lemma_one_cell_per_agent(self, agent: AgentID)
        requires
            self.grid_complete(),
            self.positions_agree(),
            agent < self.positions.len(),
        ensures
            self.positions[agent as int] == Coordinate::off_board() <==> forall|i: int|
                0 <= i < self.cells.len() ==> !(#[trigger] self.cells[i]).agents().contains(agent),
            self.positions[agent as int] != Coordinate::off_board() ==> {
                &&& self.in_bounds(self.positions[agent as int])
                &&& 0 <= self.index(self.positions[agent as int]) < self.cells.len()
                &&& forall|i: int|
                    0 <= i < self.cells.len() ==> ((#[trigger] self.cells[i]).agents().contains(
                        agent,
                    ) <==> i == self.index(self.positions[agent as int]))
            },
    {
        let position = self.positions[agent as int];
        if self.in_bounds(position) {
            lemma_index_in_range(self, position);
            assert(self.cell(position).agents().contains(agent));
            assert(self.cells[self.index(position)].agents().contains(agent));
        }
    }

    /// Looking at the victory conditions keeps the invariants.
    pub proof fn lemma_after_check_inv(self)
        requires
            self.inv(),
        ensures
            self.after_check().inv(),
            self.lost().inv(),
    {
    }

    /// A step from a coordinate on the board can be taken within `Index`,
    /// and a step from off the board does not lead onto it.
    pub proof fn lemma_neighbour(self, c: Coordinate, direction: Direction)
        requires
            self.grid_complete(),
            self.in_bounds(c) || c == Coordinate::off_board(),
        ensures
            c.can_step(direction),
            self.in_bounds(c.neighbour(direction)) ==> self.in_bounds(c),
    {
    }

    /// An agent that can move stands on the board, in a block that lists it,
    /// and the block it moves to does not list it once it has left its own.
    pub proof fn lemma_move_possible(self, agent: AgentID, direction: Direction)
        requires
            self.inv(),
            agent < self.positions.len(),
            self.can_move(agent, direction),
        ensures
            self.in_bounds(self.positions[agent as int]),
            self.cell(self.positions[agent as int]).supports_agents(),
            self.cell(self.positions[agent as int].neighbour(direction)).supports_agents(),
            !self.with_removed(self.positions[agent as int], agent).cell(
                self.positions[agent as int].neighbour(direction),
            ).agents().contains(agent),
    {
        let from = self.positions[agent as int];
        let to = from.neighbour(direction);
        self.lemma_neighbour(from, direction);
        lemma_index_in_range(self, from);
        lemma_index_in_range(self, to);
        assert(self.cell(from).agents().contains(agent));
        let left = self.with_removed(from, agent);
        if self.index(to) != self.index(from) {
            assert(left.cells[self.index(to)] == self.cells[self.index(to)]);
            if self.cells[self.index(to)].agents().contains(agent) {
                assert(self.index(self.positions[agent as int]) == self.index(to));
            }
        }
    }

    /// Moving an agent keeps the invariants.
    pub proof fn lemma_moved_inv(self, agent: AgentID, direction: Direction)
        requires
            self.inv(),
            agent < self.positions.len(),
        ensures
            self.moved(agent, direction).inv(),
    {
        self.lemma_after_check_inv();
        if self.can_move(agent, direction) {
            let from = self.positions[agent as int];
            let to = from.neighbour(direction);
            self.lemma_move_possible(agent, direction);
            lemma_index_in_range(self, from);
            lemma_index_in_range(self, to);
            let left = self.with_removed(from, agent);
            self.lemma_with_removed(from, agent);
            let entered = left.with_entered(self.index(to), agent);
            left.lemma_with_entered(self.index(to), agent);
            let arrived = BoardView { positions: self.positions.update(agent as int, to), ..entered };
            assert(arrived.grid_complete());
            assert(arrived.satisfied_in_range());
            assert(agents_on_board(arrived.positions) =~= agents_on_board(self.positions));
            assert(arrived.alive_counted());
            assert(arrived.positions_agree()) by {
                assert forall|a: AgentID|
                    a < arrived.positions.len() && arrived.in_bounds(
                        #[trigger] arrived.positions[a as int],
                    ) implies arrived.cell(arrived.positions[a as int]).agents().contains(a) by {
                    let p = arrived.positions[a as int];
                    if a != agent {
                        assert(p == self.positions[a as int]);
                        assert(self.cell(p).agents().contains(a));
                        lemma_index_in_range(self, p);
                        assert(left.cells[self.index(p)].agents().contains(a));
                        assert(entered.cells[self.index(p)].agents().contains(a));
                    } else {
                        assert(p == to);
                        assert(left.cells[self.index(to)].supports_agents());
                        assert(entered.cells[self.index(to)] == left.cells[self.index(to)].entered(
                            agent,
                        ));
                    }
                }
                assert forall|i: int, a: AgentID|
                    0 <= i < arrived.cells.len() && #[trigger] arrived.cells[i].agents().contains(
                        a,
                    ) implies a < arrived.positions.len() && arrived.in_bounds(
                    arrived.positions[a as int],
                ) && arrived.index(arrived.positions[a as int]) == i by {
                    if a != agent {
                        assert(self.cells[i].agents().contains(a));
                    } else if i != self.index(to) {
                        assert(self.cells[i].agents().contains(a));
                    }
                }
            }
            arrived.lemma_after_check_inv();
        }
    }
}

/// Those of `residents` below `upto`.
pub open spec fn residents_below(residents: Set<AgentID>, upto: nat) -> Set<AgentID> {
    Set::new(|a: AgentID| residents.contains(a) && a < upto)
}

impl BoardView {
    /// Whether the block at `start` can be taken to `end`: `start` is on the
    /// board, and if `end` is too, it is another cell, and the block can take
    /// in whoever stands there.
    pub open spec fn can_relocate(self, start: Coordinate, end: Coordinate) -> bool {
        &&& self.in_bounds(start)
        &&& self.in_bounds(end) ==> {
            &&& end != start
            &&& forall|a: AgentID| #[trigger]
                self.cell(end).agents().contains(a) ==> self.cell(start).supports_agents()
        }
    }

    /// Ejecting a block keeps the invariants.
    pub proof fn lemma_ejected_inv(self, start: Coordinate, end: Coordinate)
        requires
            self.inv(),
            self.in_bounds(start),
            !self.in_bounds(end),
        ensures
            self.relocated(start, end).inv(),
            self.cell(start).agents().len() <= self.alive,
    {
        let i = self.index(start);
        lemma_index_in_range(self, start);
        let occupants = self.cell(start).agents();
        let after = self.relocated(start, end);
        super::blocks::lemma_agents_finite(occupants);
        super::blocks::lemma_agents_finite(agents_on_board(self.positions));
        assert(occupants.subset_of(agents_on_board(self.positions))) by {
            assert forall|a: AgentID| occupants.contains(a) implies agents_on_board(
                self.positions,
            ).contains(a) by {
                assert(self.cells[i].agents().contains(a));
            }
        }
        assert(agents_on_board(self.positions).intersect(occupants) =~= occupants);
        vstd::set_lib::lemma_set_difference_len(agents_on_board(self.positions), occupants);
        assert(agents_on_board(after.positions) =~= agents_on_board(self.positions).difference(
            occupants,
        )) by {
            assert forall|a: AgentID|
                agents_on_board(after.positions).contains(a) <==> agents_on_board(
                    self.positions,
                ).difference(occupants).contains(a) by {
                if a < self.positions.len() {
                    assert(after.positions[a as int] == if occupants.contains(a) {
                        Coordinate::off_board()
                    } else {
                        self.positions[a as int]
                    });
                }
            }
        }
        assert(after.alive_counted());
        lemma_cell_sets_finite(self.cells);
        lemma_cell_sets_finite(after.cells);
        lemma_cell_replaced(self.cells, i, BlockView::Air);
        vstd::set_lib::lemma_len_subset(counted_cells(after.cells), counted_cells(self.cells));
        vstd::set_lib::lemma_len_subset(pending_cells(after.cells), pending_cells(self.cells));
        if exists|j: int| 0 <= j < after.cells.len() && #[trigger] after.cells[j].is_goal() {
            let j = choose|j: int| 0 <= j < after.cells.len() && #[trigger] after.cells[j].is_goal();
            assert(self.cells[j].is_goal());
        }
        assert(after.satisfied_in_range());
        assert(after.positions_agree()) by {
            assert forall|a: AgentID|
                a < after.positions.len() && after.in_bounds(
                    #[trigger] after.positions[a as int],
                ) implies after.cell(after.positions[a as int]).agents().contains(a) by {
                let p = self.positions[a as int];
                assert(!occupants.contains(a));
                assert(after.positions[a as int] == p);
                assert(self.cell(p).agents().contains(a));
                lemma_index_in_range(self, p);
            }
            assert forall|j: int, a: AgentID|
                0 <= j < after.cells.len() && #[trigger] after.cells[j].agents().contains(
                    a,
                ) implies a < after.positions.len() && after.in_bounds(after.positions[a as int])
                && after.index(after.positions[a as int]) == j by {
                assert(j != i);
                assert(self.cells[j].agents().contains(a));
                if occupants.contains(a) {
                    assert(self.cells[i].agents().contains(a));
                }
            }
        }
    }

    /// What a cell and the board are once agents that stood elsewhere have
    /// entered the cell one after another.
    pub proof fn lemma_settled(self, at: int, residents: Set<AgentID>, upto: nat)
        requires
            self.grid_complete(),
            self.satisfied_in_range(),
            0 <= at < self.cells.len(),
            residents.disjoint(self.cells[at].agents()),
            forall|a: AgentID| #[trigger] residents.contains(a) ==> self.cells[at].supports_agents(),
            upto <= u8::MAX + 1,
        ensures
            self.settled(at, residents, upto).grid_complete(),
            self.settled(at, residents, upto).satisfied_in_range(),
            self.settled(at, residents, upto).cells == self.cells.update(
                at,
                self.cells[at].occupied_by(
                    self.cells[at].agents() + residents_below(residents, upto),
                ),
            ),
            self.settled(at, residents, upto) == (BoardView {
                cells: self.settled(at, residents, upto).cells,
                stats: self.settled(at, residents, upto).stats,
                ..self
            }),
        decreases upto,
    {
        let block = self.cells[at];
        if upto == 0 {
            assert(block.agents() + residents_below(residents, 0) =~= block.agents());
            assert(block.occupied_by(block.agents()) == block);
            assert(self.cells =~= self.cells.update(at, block));
        } else {
            let before = self.settled(at, residents, (upto - 1) as nat);
            self.lemma_settled(at, residents, (upto - 1) as nat);
            let agent = (upto - 1) as AgentID;
            let sofar = block.agents() + residents_below(residents, (upto - 1) as nat);
            if residents.contains(agent) {
                assert(agent == upto - 1);
                assert(!sofar.contains(agent));
                assert(before.cells[at] == block.occupied_by(sofar));
                before.lemma_with_entered(at, agent);
                assert(sofar.insert(agent) =~= block.agents() + residents_below(residents, upto));
                assert(before.cells[at].entered(agent) == block.occupied_by(
                    block.agents() + residents_below(residents, upto),
                ));
                assert(before.with_entered(at, agent).cells =~= self.cells.update(
                    at,
                    block.occupied_by(block.agents() + residents_below(residents, upto)),
                ));
            } else {
                assert(sofar =~= block.agents() + residents_below(residents, upto));
            }
        }
    }
}

impl BoardView {
    /// Once a block has taken the place of another on the board, those who
    /// stood there can enter it.
    pub proof fn lemma_displaced(self, start: Coordinate, end: Coordinate)
        requires
            self.inv(),
            self.can_relocate(start, end),
            self.in_bounds(end),
        ensures
            0 <= self.index(start) < self.cells.len(),
            0 <= self.index(end) < self.cells.len(),
            self.index(start) != self.index(end),
            self.displaced(start, end).grid_complete(),
            self.displaced(start, end).satisfied_in_range(),
            self.cell(end).agents().disjoint(self.cell(start).agents()),
            residents_below(self.cell(end).agents(), self.positions.len()) == self.cell(
                end,
            ).agents(),
    {
        let (i, e) = (self.index(start), self.index(end));
        lemma_index_in_range(self, start);
        lemma_index_in_range(self, end);
        if i == e {
            lemma_index_injective(self, start, end);
        }
        let moved = self.cell(start);
        let residents = self.cell(end).agents();
        let cleared = self.cells.update(i, BlockView::Air);
        let base = self.displaced(start, end);
        lemma_cell_sets_finite(self.cells);
        lemma_cell_sets_finite(cleared);
        lemma_cell_sets_finite(base.cells);
        lemma_cell_replaced(self.cells, i, BlockView::Air);
        lemma_cell_replaced(cleared, e, moved);
        assert(counted_cells(self.cells).contains(i) == moved.is_counted());
        assert(pending_cells(self.cells).contains(i) == moved.is_pending());
        if exists|j: int| 0 <= j < base.cells.len() && #[trigger] base.cells[j].is_goal() {
            assert(self.cells[i].is_goal() || exists|j: int|
                0 <= j < self.cells.len() && #[trigger] self.cells[j].is_goal()) by {
                let j = choose|j: int| 0 <= j < base.cells.len() && #[trigger] base.cells[j].is_goal();
                if j != e {
                    assert(self.cells[j].is_goal());
                }
            }
        }
        assert forall|a: AgentID| residents.contains(a) implies !moved.agents().contains(a) by {
            assert(self.cells[e].agents().contains(a));
            if moved.agents().contains(a) {
                assert(self.cells[i].agents().contains(a));
            }
        }
        assert(residents_below(residents, self.positions.len()) =~= residents) by {
            assert forall|a: AgentID| residents.contains(a) implies a < self.positions.len() by {
                assert(self.cells[e].agents().contains(a));
            }
        }
    }

    /// Taking a block to another cell of the board keeps the invariants.
    pub proof fn lemma_replaced_inv(self, start: Coordinate, end: Coordinate)
        requires
            self.inv(),
            self.can_relocate(start, end),
            self.in_bounds(end),
        ensures
            self.relocated(start, end).inv(),
            self.relocated(start, end).cell(end) == self.cell(start).occupied_by(
                self.cell(start).agents() + self.cell(end).agents(),
            ),
            self.relocated(start, end).x_size == self.x_size,
            self.relocated(start, end).y_size == self.y_size,
            self.relocated(start, end).alive == self.alive,
            self.relocated(start, end).state == self.state,
    {
        let (i, e) = (self.index(start), self.index(end));
        let n = self.positions.len();
        let moved = self.cell(start);
        let occupants = moved.agents();
        let residents = self.cell(end).agents();
        let base = self.displaced(start, end);
        let after = self.relocated(start, end);
        self.lemma_displaced(start, end);
        base.lemma_settled(e, residents, n);
        assert(after.cells[e] == moved.occupied_by(occupants + residents));
        assert(agents_on_board(after.positions) =~= agents_on_board(self.positions)) by {
            assert forall|a: AgentID|
                agents_on_board(after.positions).contains(a) <==> agents_on_board(
                    self.positions,
                ).contains(a) by {
                if a < n {
                    if occupants.contains(a) {
                        assert(self.cells[i].agents().contains(a));
                        assert(after.positions[a as int] == end);
                    } else {
                        assert(after.positions[a as int] == self.positions[a as int]);
                    }
                }
            }
        }
        assert(after.positions_agree()) by {
            assert forall|a: int| 0 <= a < after.positions.len() implies #[trigger] after.positions[a]
                == Coordinate::off_board() || after.in_bounds(after.positions[a]) by {
                assert(self.positions[a] == Coordinate::off_board() || self.in_bounds(
                    self.positions[a],
                ));
            }
            assert forall|a: AgentID|
                a < after.positions.len() && after.in_bounds(
                    #[trigger] after.positions[a as int],
                ) implies after.cell(after.positions[a as int]).agents().contains(a) by {
                if occupants.contains(a) {
                    assert(after.positions[a as int] == end);
                    assert(moved.supports_agents());
                } else {
                    let p = self.positions[a as int];
                    assert(after.positions[a as int] == p);
                    assert(self.cell(p).agents().contains(a));
                    lemma_index_in_range(self, p);
                    if self.index(p) == e {
                        assert(residents.contains(a));
                        assert(self.cell(end).agents().contains(a));
                        assert(moved.supports_agents());
                    }
                }
            }
            assert forall|j: int, a: AgentID|
                0 <= j < after.cells.len() && #[trigger] after.cells[j].agents().contains(
                    a,
                ) implies a < after.positions.len() && after.in_bounds(after.positions[a as int])
                && after.index(after.positions[a as int]) == j by {
                if j == e {
                    if occupants.contains(a) {
                        assert(self.cells[i].agents().contains(a));
                    } else {
                        assert(residents.contains(a));
                        assert(self.cells[e].agents().contains(a));
                    }
                } else {
                    assert(j != i);
                    assert(self.cells[j].agents().contains(a));
                    if occupants.contains(a) {
                        assert(self.cells[i].agents().contains(a));
                    }
                }
            }
        }
    }

    /// Taking a block elsewhere keeps the invariants.
    pub proof fn lemma_relocated_inv(self, start: Coordinate, end: Coordinate)
        requires
            self.inv(),
            self.can_relocate(start, end),
        ensures
            self.relocated(start, end).inv(),
    {
        if self.in_bounds(end) {
            self.lemma_replaced_inv(start, end);
        } else {
            self.lemma_ejected_inv(start, end);
        }
    }
}

impl LevelView {
    /// The statistics of a level are those that it has goals for.
    pub proof fn lemma_stats_for(self, cells: Seq<BlockView>)
        requires
            self.valid(),
        ensures
            names_distinct(self.stats_for(cells)),
            forall|name: Seq<char>|
                is_tracked(self.stats_for(cells), name) == #[trigger] self.tracks(name),
            forall|j: int|
                0 <= j < self.goals.len() ==> stat_index(
                    self.stats_for(cells),
                    (#[trigger] self.goals[j]).0,
                ) == j,
    {
        let stats = self.stats_for(cells);
        assert forall|a: int, b: int|
            0 <= a < stats.len() && 0 <= b < stats.len() && #[trigger] stats[a].name
                == #[trigger] stats[b].name implies a == b by {
            assert(self.goals[a].0 == self.goals[b].0);
        }
        assert forall|name: Seq<char>| is_tracked(stats, name) == #[trigger] self.tracks(name) by {
            if is_tracked(stats, name) {
                let i = stat_index(stats, name);
                assert(self.goals[i].0 == name);
            }
            if self.tracks(name) {
                let j = choose|j: int| 0 <= j < self.goals.len() && (#[trigger] self.goals[j]).0 == name;
                assert(stats[j].name == name);
            }
        }
        assert forall|j: int| 0 <= j < self.goals.len() implies stat_index(
            stats,
            (#[trigger] self.goals[j]).0,
        ) == j by {
            assert(stats[j].name == self.goals[j].0);
            let i = stat_index(stats, self.goals[j].0);
            assert(stats[i].name == stats[j].name);
        }
    }

    /// While the agents enter where they start, the grid and the statistics
    /// are in order.
    pub proof fn lemma_start_with(self, upto: nat)
        requires
            self.valid(),
        ensures
            self.start_with(upto).grid_complete(),
            self.start_with(upto).satisfied_in_range(),
            goal_cells(self.cells_with(upto)) == goal_cells(self.blocks),
            is_tracked(self.start_with(upto).stats, blocks_satisfied())
                ==> self.start_with(upto).satisfied() == counted_cells(self.cells_with(upto)).len(),
    {
        let cells = self.cells_with(upto);
        let board = self.start_with(upto);
        self.lemma_stats_for(cells);
        lemma_cell_sets_finite(cells);
        assert(goal_cells(cells) =~= goal_cells(self.blocks)) by {
            assert forall|i: int| 0 <= i < cells.len() implies (#[trigger] cells[i].is_goal())
                == self.blocks[i].is_goal() by {}
        }
        if exists|i: int| 0 <= i < cells.len() && #[trigger] cells[i].is_goal() {
            let i = choose|i: int| 0 <= i < cells.len() && #[trigger] cells[i].is_goal();
            assert(goal_cells(cells).contains(i));
            assert(goal_cells(self.blocks).len() > 0) by {
                if goal_cells(self.blocks).len() == 0 {
                    lemma_cell_sets_finite(self.blocks);
                    assert(goal_cells(self.blocks) =~= Set::empty());
                }
            }
        }
        if is_tracked(board.stats, blocks_satisfied()) {
            let j = choose|j: int|
                0 <= j < self.goals.len() && (#[trigger] self.goals[j]).0 == blocks_satisfied();
            assert(stat_index(board.stats, self.goals[j].0) == j);
            assert(board.stats[j].value == counted_cells(cells).len() as u8);
        }
    }

    /// The next agent can enter where it starts, and the board is then what
    /// it is with one more agent.
    pub proof fn lemma_start_next(self, agent: AgentID)
        requires
            self.valid(),
            agent < self.starts.len(),
        ensures
            0 <= self.index(self.starts[agent as int]) < self.blocks.len(),
            self.start_with(agent as nat).cells[self.index(
                self.starts[agent as int],
            )].supports_agents(),
            !self.start_with(agent as nat).cells[self.index(
                self.starts[agent as int],
            )].agents().contains(agent),
            self.start_with(agent as nat).with_entered(self.index(self.starts[agent as int]), agent)
                == self.start_with((agent + 1) as nat),
    {
        let upto = agent as nat;
        let board = self.start_with(upto);
        let next = self.start_with(upto + 1);
        let at = self.index(self.starts[agent as int]);
        self.lemma_start_with(upto);
        self.lemma_start_with(upto + 1);
        assert(self.in_bounds(self.starts[agent as int]));
        lemma_index_in_range(board, self.starts[agent as int]);
        let block = board.cells[at];
        assert(self.blocks[at].can_enter(Direction::Stay));
        assert(block.supports_agents());
        let entered = board.with_entered(at, agent);
        assert(entered.cells =~= next.cells) by {
            assert forall|i: int| 0 <= i < next.cells.len() implies entered.cells[i]
                == next.cells[i] by {
                if i == at {
                    assert(self.starters(i, upto).insert(agent) =~= self.starters(i, upto + 1));
                } else {
                    assert(self.starters(i, upto) =~= self.starters(i, upto + 1));
                }
            }
        }
        board.lemma_with_entered(at, agent);
        self.lemma_stats_for(board.cells);
        self.lemma_stats_for(next.cells);
        lemma_cell_sets_finite(board.cells);
        lemma_cell_sets_finite(next.cells);
        lemma_cell_replaced(board.cells, at, block.entered(agent));
        super::blocks::lemma_agents_finite(block.agents());
        let changes = block.enter_update(agent);
        if changes.len() > 0 {
            let change = StatChange::Increase(blocks_satisfied(), 1);
            assert(changes =~= seq![change]);
            lemma_apply_one(board.stats, change);
            lemma_apply_change_keeps_names(board.stats, change);
            assert(block.is_pending());
            assert(block.entered(agent).is_counted());
            assert(!counted_cells(board.cells).contains(at));
            assert(board.cells[at].is_goal());
            assert(goal_cells(board.cells).contains(at));
            assert(is_tracked(board.stats, blocks_satisfied()));
            let place = stat_index(board.stats, blocks_satisfied());
            assert(entered.stats =~= next.stats) by {
                assert forall|j: int| 0 <= j < next.stats.len() implies entered.stats[j]
                    == next.stats[j] by {
                    if j != place {
                        assert(board.stats[j].name != blocks_satisfied());
                    }
                }
            }
        } else {
            assert(changes =~= Seq::<StatChange>::empty());
            lemma_apply_one(board.stats, StatChange::Increase(blocks_satisfied(), 1));
            assert(block.entered(agent).is_counted() == block.is_counted());
            if block.is_counted() {
                assert(counted_cells(board.cells).contains(at));
            } else {
                assert(!counted_cells(board.cells).contains(at));
            }
            assert(counted_cells(next.cells) =~= counted_cells(board.cells));
            assert(entered.stats =~= next.stats);
        }
    }

    /// The board at the start of a valid level meets the invariants.
    pub proof fn lemma_start_inv(self)
        requires
            self.valid(),
        ensures
            self.start().inv(),
    {
        let n = self.starts.len();
        let board = self.start();
        self.lemma_start_with(n);
        assert(board.alive_counted()) by {
            let all = Set::<AgentID>::range(0, n as AgentID);
            vstd::set_lib::range_set_properties::<AgentID>(0, n as AgentID);
            assert(agents_on_board(self.starts) =~= all) by {
                assert forall|a: AgentID| agents_on_board(self.starts).contains(a) <==> all.contains(
                    a,
                ) by {
                    if a < n {
                        assert(self.in_bounds(self.starts[a as int]));
                    }
                }
            }
        }
        assert(board.positions_agree()) by {
            assert forall|a: AgentID|
                a < board.positions.len() && board.in_bounds(
                    #[trigger] board.positions[a as int],
                ) implies board.cell(board.positions[a as int]).agents().contains(a) by {
                let p = self.starts[a as int];
                assert(self.in_bounds(p));
                lemma_index_in_range(board, p);
                assert(self.blocks[self.index(p)].can_enter(Direction::Stay));
                assert(self.starters(self.index(p), n).contains(a));
            }
            assert forall|i: int, a: AgentID|
                0 <= i < board.cells.len() && #[trigger] board.cells[i].agents().contains(
                    a,
                ) implies a < board.positions.len() && board.in_bounds(board.positions[a as int])
                && board.index(board.positions[a as int]) == i by {
                assert(self.starters(i, n).contains(a));
                assert(self.in_bounds(self.starts[a as int]));
            }
        }
    }
}

/// The log once its last input has been undone; an empty log stays empty.
pub open spec fn undone(log: Seq<PlayerInput>) -> Seq<PlayerInput> {
    if log.len() == 0 {
        log
    } else {
        log.drop_last()
    }
}

/// The log once `times` inputs have been undone, last first.
pub open spec fn undone_times(log: Seq<PlayerInput>, times: nat) -> Seq<PlayerInput>
    decreases times,
{
    if times == 0 {
        log
    } else {
        undone_times(undone(log), (times - 1) as nat)
    }
}

impl BoardView {
    /// Where every input of a log may be given in its turn, so may every
    /// input of its beginning, and the one that comes next.
    pub proof fn lemma_allows_prefix(self, log: Seq<PlayerInput>, upto: int)
        requires
            self.allows_all(log),
            0 <= upto <= log.len(),
        ensures
            self.allows_all(log.take(upto)),
            upto < log.len() ==> self.replay(log.take(upto)).allows(log[upto]),
        decreases log.len(),
    {
        if upto == log.len() {
            assert(log.take(upto) =~= log);
        } else {
            self.lemma_allows_prefix(log.drop_last(), upto);
            assert(log.drop_last().take(upto) =~= log.take(upto));
            if upto == log.len() - 1 {
                assert(log.take(upto) =~= log.drop_last());
            }
        }
    }

    /// Undo round trip: however many inputs have been given, undoing as many
    /// leaves an empty log, and replaying it from the start of the level
    /// gives the start of the level again: the same cells, positions,
    /// statistics and running game.
    pub proof fn lemma_undo_round_trip(self, log: Seq<PlayerInput>)
        ensures
            undone_times(log, log.len()) == Seq::<PlayerInput>::empty(),
            self.replay(undone_times(log, log.len())) == self,
        decreases log.len(),
    {
        if log.len() == 0 {
            assert(log =~= Seq::<PlayerInput>::empty());
        } else {
            self.lemma_undo_round_trip(log.drop_last());
        }
    }
}

/// The grid once each of `placements` has been put where it belongs, in
/// order: a later block replaces an earlier one in the same cell.
pub open spec fn placed(
    cells: Seq<BlockView>,
    placements: Seq<(Coordinate, BlockView)>,
    y_size: Index,
) -> Seq<BlockView>
    decreases placements.len(),
{
    if placements.len() == 0 {
        cells
    } else {
        let (at, block) = placements.last();
        placed(cells, placements.drop_last(), y_size).update(at.x * y_size + at.y, block)
    }
}

/// The place of the goal named `name` among `goals`, where there is one.
pub open spec fn goal_index(goals: Seq<(Seq<char>, GoalType)>, name: Seq<char>) -> int {
    choose|j: int| 0 <= j < goals.len() && (#[trigger] goals[j]).0 == name
}

/// Whether `goals` holds a goal named `name`.
pub open spec fn has_goal(goals: Seq<(Seq<char>, GoalType)>, name: Seq<char>) -> bool {
    exists|j: int| 0 <= j < goals.len() && (#[trigger] goals[j]).0 == name
}

/// The goals by name: of two conditions with the same name, the later
/// replaces the earlier, in the earlier one's place.
pub open spec fn merged(conditions: Seq<(Seq<char>, GoalType)>) -> Seq<(Seq<char>, GoalType)>
    decreases conditions.len(),
{
    if conditions.len() == 0 {
        Seq::empty()
    } else {
        let before = merged(conditions.drop_last());
        let condition = conditions.last();
        if has_goal(before, condition.0) {
            before.update(goal_index(before, condition.0), condition)
        } else {
            before.push(condition)
        }
    }
}

pub open spec fn negative_size_message() -> Seq<char> {
    "Board dimensions must not be negative"@
}

pub open spec fn block_out_of_bounds_message() -> Seq<char> {
    "Block out of bounds"@
}

pub open spec fn too_many_agents_message() -> Seq<char> {
    "A board has at most 255 agents"@
}

pub open spec fn agent_out_of_bounds_message() -> Seq<char> {
    "Agent start position is out of bounds"@
}

pub open spec fn agent_on_closed_block_message() -> Seq<char> {
    "Agent start placed on block that does not support agents"@
}

pub open spec fn too_many_goal_blocks_message() -> Seq<char> {
    "A board has at most 255 goal blocks"@
}

pub open spec fn untracked_goal_blocks_message() -> Seq<char> {
    "Goal blocks need the victory condition BlocksSatisfied"@
}

/// What a board is asked to be built from.
pub struct SetupView {
    pub x_size: Index,
    pub y_size: Index,
    /// The blocks that are not air, each with its coordinate.
    pub placements: Seq<(Coordinate, BlockView)>,
    /// The victory conditions: a statistic's name and its goal.
    pub conditions: Seq<(Seq<char>, GoalType)>,
    /// Where each agent starts.
    pub starts: Seq<Coordinate>,
    pub must_finish: u8,
}

impl SetupView {
    pub open spec fn in_bounds(self, c: Coordinate) -> bool {
        0 <= c.x < self.x_size && 0 <= c.y < self.y_size
    }

    /// The level that is asked for: a grid of air but for the placements,
    /// taken without their occupants.
    pub open spec fn level(self) -> LevelView {
        LevelView {
            x_size: self.x_size,
            y_size: self.y_size,
            blocks: placed(
                Seq::new((self.x_size * self.y_size) as nat, |i: int| BlockView::Air),
                self.placements.map_values(|p: (Coordinate, BlockView)| (p.0, p.1.vacated())),
                self.y_size,
            ),
            starts: self.starts,
            must_finish: self.must_finish,
            goals: merged(self.conditions),
        }
    }

    /// Whether agent `a` starts on the board, on a block that lets it in.
    pub open spec fn start_fits(self, a: int) -> bool {
        self.in_bounds(self.starts[a]) && self.level().blocks[self.level().index(
            self.starts[a],
        )].can_enter(Direction::Stay)
    }

    /// The first agent that does not start on the board on a block that lets
    /// it in, where there is one.
    pub open spec fn first_misfit(self) -> int {
        choose|a: int|
            0 <= a < self.starts.len() && !self.start_fits(a) && forall|b: int|
                0 <= b < a ==> self.start_fits(b)
    }

    /// Why no board can be built, if none can: the first of these that
    /// holds. A dimension is negative; a block lies outside the grid; there
    /// are more than 255 agents; an agent starts outside the grid, or on a
    /// block that lets no agent in (the first such agent decides); more than
    /// 255 blocks ask for occupants; blocks ask for occupants and no victory
    /// condition is named `BlocksSatisfied`.
    pub open spec fn error(self) -> Option<Seq<char>> {
        if self.x_size < 0 || self.y_size < 0 {
            Some(negative_size_message())
        } else if exists|k: int|
            0 <= k < self.placements.len() && !self.in_bounds((#[trigger] self.placements[k]).0) {
            Some(block_out_of_bounds_message())
        } else if self.starts.len() > u8::MAX {
            Some(too_many_agents_message())
        } else if exists|a: int| 0 <= a < self.starts.len() && !self.start_fits(a) {
            if !self.in_bounds(self.starts[self.first_misfit()]) {
                Some(agent_out_of_bounds_message())
            } else {
                Some(agent_on_closed_block_message())
            }
        } else if goal_cells(self.level().blocks).len() > u8::MAX {
            Some(too_many_goal_blocks_message())
        } else if goal_cells(self.level().blocks).len() > 0 && !self.level().tracks(
            blocks_satisfied(),
        ) {
            Some(untracked_goal_blocks_message())
        } else {
            None
        }
    }
}

/// Merged goals have distinct names, and a name is among them exactly if a
/// condition has it.
pub proof fn lemma_merged(conditions: Seq<(Seq<char>, GoalType)>)
    ensures
        forall|i: int, j: int|
            0 <= i < merged(conditions).len() && 0 <= j < merged(conditions).len() && (
            #[trigger] merged(conditions)[i]).0 == (#[trigger] merged(conditions)[j]).0 ==> i == j,
        forall|name: Seq<char>|
            has_goal(merged(conditions), name) == #[trigger] has_goal(conditions, name),
    decreases conditions.len(),
{
    let goals = merged(conditions);
    if conditions.len() == 0 {
    } else {
        let before = merged(conditions.drop_last());
        let condition = conditions.last();
        lemma_merged(conditions.drop_last());
        if has_goal(before, condition.0) {
            let at = goal_index(before, condition.0);
            assert forall|i: int, j: int|
                0 <= i < goals.len() && 0 <= j < goals.len() && (#[trigger] goals[i]).0 == (
                #[trigger] goals[j]).0 implies i == j by {
                assert(before[i].0 == goals[i].0);
                assert(before[j].0 == goals[j].0);
            }
        } else {
            assert forall|i: int, j: int|
                0 <= i < goals.len() && 0 <= j < goals.len() && (#[trigger] goals[i]).0 == (
                #[trigger] goals[j]).0 implies i == j by {
                if i < before.len() {
                    assert(before[i].0 == goals[i].0);
                }
                if j < before.len() {
                    assert(before[j].0 == goals[j].0);
                }
            }
        }
        assert forall|name: Seq<char>| has_goal(goals, name) == #[trigger] has_goal(
            conditions,
            name,
        ) by {
            let last = conditions.len() - 1;
            let earlier = conditions.drop_last();
            assert(has_goal(before, name) == has_goal(earlier, name));
            if has_goal(goals, name) {
                let j = goal_index(goals, name);
                if j < before.len() && before[j].0 == name {
                    assert(has_goal(before, name));
                    let k = goal_index(earlier, name);
                    assert(earlier[k].0 == name);
                    assert(conditions[k].0 == name);
                } else {
                    assert(conditions[last].0 == name);
                }
            }
            if has_goal(conditions, name) {
                let k = goal_index(conditions, name);
                if k < last {
                    assert(earlier[k].0 == name);
                    assert(has_goal(earlier, name));
                    let j = goal_index(before, name);
                    assert(goals[j].0 == name);
                } else if has_goal(before, condition.0) {
                    assert(goals[goal_index(before, condition.0)].0 == name);
                } else {
                    assert(goals[before.len() as int].0 == name);
                }
            }
        }
    }
}

/// Putting blocks into cells of a grid keeps its size.
pub proof fn lemma_placed_len(
    cells: Seq<BlockView>,
    placements: Seq<(Coordinate, BlockView)>,
    y_size: Index,
)
    requires
        forall|k: int|
            0 <= k < placements.len() ==> 0 <= (#[trigger] placements[k]).0.x * y_size
                + placements[k].0.y < cells.len(),
    ensures
        placed(cells, placements, y_size).len() == cells.len(),
    decreases placements.len(),
{
    if placements.len() > 0 {
        let earlier = placements.drop_last();
        assert forall|k: int| 0 <= k < earlier.len() implies 0 <= (#[trigger] earlier[k]).0.x
            * y_size + earlier[k].0.y < cells.len() by {
            assert(earlier[k] == placements[k]);
        }
        lemma_placed_len(cells, earlier, y_size);
    }
}

impl SetupView {
    /// A board can be built exactly from a level that a board can start
    /// from.
    pub proof fn lemma_error_none(self)
        requires
            self.error() is None,
        ensures
            self.level().valid(),
    {
        let level = self.level();
        lemma_merged(self.conditions);
        let (x, y) = (self.x_size as int, self.y_size as int);
        assert(0 <= x * y) by (nonlinear_arith)
            requires
                0 <= x,
                0 <= y,
        ;
        let vacated = self.placements.map_values(
            |p: (Coordinate, BlockView)| (p.0, p.1.vacated()),
        );
        assert forall|k: int| 0 <= k < vacated.len() implies 0 <= (#[trigger] vacated[k]).0.x
            * self.y_size + vacated[k].0.y < x * y by {
            let c = self.placements[k].0;
            assert(self.in_bounds(c));
            let (cx, cy) = (c.x as int, c.y as int);
            assert(0 <= cx * y + cy < x * y) by (nonlinear_arith)
                requires
                    0 <= cx < x,
                    0 <= cy < y,
            ;
        }
        lemma_placed_len(
            Seq::new((self.x_size * self.y_size) as nat, |i: int| BlockView::Air),
            vacated,
            self.y_size,
        );
        assert forall|a: int| 0 <= a < level.starts.len() implies level.in_bounds(
            #[trigger] level.starts[a],
        ) && level.blocks[level.index(level.starts[a])].can_enter(Direction::Stay) by {
            assert(self.start_fits(a));
        }
    }
}

impl BoardView {
    /// The number of steps that a slide has taken when it ends, of which
    /// `steps` have been taken before the block stood at `current`.
    pub open spec fn slide_length_on(
        self,
        current: Coordinate,
        direction: Direction,
        steps: nat,
    ) -> nat
        decreases MAXIMUM_STEP_NUMBER + 1 - steps, 0nat,
    {
        if steps > MAXIMUM_STEP_NUMBER {
            steps
        } else {
            let target = current.neighbour(direction);
            if !self.in_bounds(target) {
                steps + 1
            } else {
                match self.cell(target).hit(direction) {
                    HitResult::Stop => steps + 1,
                    HitResult::NoResistance => self.relocated(current, target).slide_length_after(
                        target,
                        direction,
                        steps + 1,
                    ),
                    HitResult::MoveTo(place) => self.relocated(current, place).slide_length_after(
                        place,
                        direction,
                        steps + 1,
                    ),
                }
            }
        }
    }

    /// The number of steps that a slide has taken when it ends, after a step
    /// that took the block to `current`.
    pub open spec fn slide_length_after(
        self,
        current: Coordinate,
        direction: Direction,
        steps: nat,
    ) -> nat
        decreases MAXIMUM_STEP_NUMBER + 1 - steps, 1nat,
    {
        if steps > MAXIMUM_STEP_NUMBER || !self.in_bounds(current) {
            steps
        } else {
            self.after_check().slide_length_on(current, direction, steps)
        }
    }

    /// Step ceiling: no slide takes more than `MAXIMUM_STEP_NUMBER + 1`
    /// steps, and one that takes that many loses the game.
    pub proof fn lemma_slide_bounded(self, current: Coordinate, direction: Direction, steps: nat)
        requires
            steps <= MAXIMUM_STEP_NUMBER,
        ensures
            steps < self.slide_length_on(current, direction, steps) <= MAXIMUM_STEP_NUMBER + 1,
            self.slide_length_on(current, direction, steps) > MAXIMUM_STEP_NUMBER
                ==> self.slide_on(current, direction, steps).state == GameState::Lost,
        decreases MAXIMUM_STEP_NUMBER + 1 - steps,
    {
        let target = current.neighbour(direction);
        if self.in_bounds(target) {
            let place = match self.cell(target).hit(direction) {
                HitResult::Stop => current,
                HitResult::NoResistance => target,
                HitResult::MoveTo(place) => place,
            };
            if !(self.cell(target).hit(direction) is Stop) {
                let next = self.relocated(current, place);
                if steps + 1 <= MAXIMUM_STEP_NUMBER && next.in_bounds(place) {
                    next.after_check().lemma_slide_bounded(place, direction, steps + 1);
                }
            }
        }
    }

    /// A slide keeps the invariants.
    pub proof fn lemma_slide_on_inv(self, current: Coordinate, direction: Direction, steps: nat)
        requires
            self.inv(),
            self.in_bounds(current),
            self.cell(current).supports_agents(),
        ensures
            self.slide_on(current, direction, steps).inv(),
        decreases MAXIMUM_STEP_NUMBER + 1 - steps,
    {
        if steps <= MAXIMUM_STEP_NUMBER {
            let target = current.neighbour(direction);
            self.lemma_after_check_inv();
            if !self.in_bounds(target) {
                self.lemma_ejected_inv(current, Coordinate::off_board());
                self.relocated(current, Coordinate::off_board()).lemma_after_check_inv();
            } else if self.cell(target).hit(direction) is NoResistance {
                assert(self.cell(target) == BlockView::Air);
                self.lemma_replaced_inv(current, target);
                let next = self.relocated(current, target);
                next.lemma_after_check_inv();
                if steps + 1 <= MAXIMUM_STEP_NUMBER {
                    next.after_check().lemma_slide_on_inv(target, direction, steps + 1);
                }
            }
        }
    }

    /// The invariants hold at all times: every input that may be given
    /// keeps them.
    pub proof fn lemma_step_inv(self, input: PlayerInput)
        requires
            self.inv(),
            self.allows(input),
        ensures
            self.step(input).inv(),
    {
        match input {
            PlayerInput::Move(agent, direction) => {
                self.lemma_moved_inv(agent, direction);
            },
            PlayerInput::Slide(agent, direction) => {
                let start = self.positions[agent as int];
                assert(self.cell(start).agents().contains(agent));
                self.lemma_slide_on_inv(start, direction, 0);
            },
        }
    }

    /// The invariants hold at all times: after whatever inputs, given from
    /// a board on which they hold.
    pub proof fn lemma_replay_inv(self, log: Seq<PlayerInput>)
        requires
            self.inv(),
            self.allows_all(log),
        ensures
            self.replay(log).inv(),
        decreases log.len(),
    {
        if log.len() > 0 {
            self.lemma_replay_inv(log.drop_last());
            self.replay(log.drop_last()).lemma_step_inv(log.last());
        }
    }

    /// A move that cannot be made changes nothing but what looking at the
    /// victory conditions changes.
    pub proof fn lemma_blocked_move(self, agent: AgentID, direction: Direction)
        requires
            !self.can_move(agent, direction),
        ensures
            self.moved(agent, direction) == self.after_check(),
            self.moved(agent, direction).cells == self.cells,
            self.moved(agent, direction).positions == self.positions,
            self.moved(agent, direction).stats == self.stats,
    {
    }
}

} // verus!
