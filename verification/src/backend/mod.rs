//! The board of the sliding game and the rules that move agents and cells.

pub mod blocks;
pub mod io;
pub mod model;

use vstd::prelude::*;

use crate::utils_backend::{
    AgentID, Coordinate, Direction, GoalType, HitResult, Index, PlayerInput, ProgressUpdates,
    SlideType, StatChange, StatusUpdate,
};
use blocks::{Air, BasicBlock, BasicBlockView, Block, BlockView};
use model::{
    all_goals_met, apply_change, apply_changes, changes_fit, goal_cells, goal_index,
    has_goal, is_tracked, merged, names_distinct, placed, stat_index, undone, BoardView,
    LevelView, SetupView, StatView,
};

verus! {

broadcast use vstd::std_specs::hash::group_hash_axioms;

/// The most steps that one slide may take.
pub const MAXIMUM_STEP_NUMBER: usize = 100;

/// Whether the game is still being played, and how it ended if not.
#[derive(Debug, Clone, Copy, PartialEq, Eq, Structural)]
pub enum GameState {
    Running,
    Won,
    Lost,
}

/// A tracked statistic with its goal.
pub struct Stat {
    name: String,
    value: u8,
    goal: GoalType,
}

impl View for Stat {
    type V = StatView;

    closed spec fn view(&self) -> StatView {
        StatView { name: self.name@, value: self.value, goal: self.goal }
    }
}

/// The blocks of a board as mathematical values.
pub open spec fn blocks_view(blocks: Seq<Block>) -> Seq<BlockView> {
    blocks.map_values(|block: Block| block@)
}

/// The statistics of a board as mathematical values.
pub open spec fn stats_view(stats: Seq<Stat>) -> Seq<StatView> {
    stats.map_values(|stat: Stat| stat@)
}

/// The place of the statistic named `name` among `stats`, if it is there.
fn find_stat(stats: &Vec<Stat>, name: &String) -> (place: Option<usize>)
    requires
        names_distinct(stats_view(stats@)),
    ensures
        match place {
            Some(i) => is_tracked(stats_view(stats@), name@) && i == stat_index(
                stats_view(stats@),
                name@,
            ),
            None => !is_tracked(stats_view(stats@), name@),
        },
{
    let ghost view = stats_view(stats@);
    let mut i: usize = 0;
    while i < stats.len()
        invariant
            i <= stats.len(),
            view == stats_view(stats@),
            names_distinct(view),
            forall|j: int| 0 <= j < i ==> (#[trigger] view[j]).name != name@,
        decreases stats.len() - i,
    {
        if stats[i].name == *name {
            proof {
                assert(view[i as int].name == name@);
                let chosen = stat_index(view, name@);
                assert(view[chosen].name == view[i as int].name);
            }
            return Some(i);
        }
        i += 1;
    }
    None
}

/// One block of a level and where it stands.
pub struct Placement {
    pub position: Coordinate,
    pub block: Block,
}

/// One victory condition of a level: the name of a statistic and the goal
/// that it is held against.
pub struct VictoryCondition {
    pub name: String,
    pub goal: GoalType,
}

/// What a board is asked to be built from, as a mathematical value.
pub open spec fn setup_view(
    x_size: Index,
    y_size: Index,
    blocks: Seq<Placement>,
    victory_conditions: Seq<VictoryCondition>,
    agent_starts: Seq<Coordinate>,
    num_agents_must_finish: u8,
) -> SetupView {
    SetupView {
        x_size,
        y_size,
        placements: blocks.map_values(|p: Placement| (p.position, p.block@)),
        conditions: victory_conditions.map_values(|c: VictoryCondition| (c.name@, c.goal)),
        starts: agent_starts,
        must_finish: num_agents_must_finish,
    }
}

/// The names and goals of `stats`.
spec fn goals_of(stats: Seq<Stat>) -> Seq<(Seq<char>, GoalType)> {
    stats.map_values(|stat: Stat| (stat.name@, stat.goal))
}

/// A grid of air with one cell for each coordinate.
fn grid_of_air(x_size: Index, y_size: Index) -> (cells: Vec<Block>)
    requires
        0 <= x_size,
        0 <= y_size,
    ensures
        blocks_view(cells@) == Seq::new((x_size * y_size) as nat, |i: int| BlockView::Air),
        cells@.len() == x_size * y_size,
{
    proof {
        let (x, y) = (x_size as int, y_size as int);
        assert(0 <= x * y <= 127 * 127) by (nonlinear_arith)
            requires
                0 <= x <= 127,
                0 <= y <= 127,
        ;
    }
    let count: usize = x_size as usize * y_size as usize;
    let mut cells: Vec<Block> = Vec::new();
    while cells.len() < count
        invariant
            count == x_size * y_size,
            cells@.len() <= count,
            forall|i: int| 0 <= i < cells@.len() ==> (#[trigger] cells@[i])@ == BlockView::Air,
        decreases count - cells.len(),
    {
        cells.push(Block::Air(Air::new()));
    }
    assert(blocks_view(cells@) =~= Seq::new((x_size * y_size) as nat, |i: int| BlockView::Air));
    cells
}

/// Whether `coordinate` lies within a grid of the given size.
pub(crate) fn within(x_size: Index, y_size: Index, coordinate: Coordinate) -> (inside: bool)
    ensures
        inside == (0 <= coordinate.x < x_size && 0 <= coordinate.y < y_size),
{
    0 <= coordinate.x && coordinate.x < x_size && 0 <= coordinate.y && coordinate.y < y_size
}

/// The place in the grid of a coordinate that lies within it.
pub(crate) fn place_of(x_size: Index, y_size: Index, coordinate: Coordinate) -> (index: usize)
    requires
        0 <= coordinate.x < x_size,
        0 <= coordinate.y < y_size,
    ensures
        index == coordinate.x * y_size + coordinate.y,
        index < x_size * y_size,
{
    proof {
        let (x, y, xs, ys) = (coordinate.x as int, coordinate.y as int, x_size as int, y_size as int);
        assert(0 <= x * ys && x * ys + y < xs * ys && xs * ys <= 127 * 127) by (nonlinear_arith)
            requires
                0 <= x < xs <= 127,
                0 <= y < ys <= 127,
        ;
    }
    coordinate.x as usize * y_size as usize + coordinate.y as usize
}

/// The blocks of a level: air but for `blocks`, each put where it belongs
/// without its occupants, or `None` if one of them lies outside the grid.
pub(crate) fn lay_out(x_size: Index, y_size: Index, blocks: &Vec<Placement>) -> (cells: Option<Vec<Block>>)
    requires
        0 <= x_size,
        0 <= y_size,
    ensures
        ({
            let setup = setup_view(x_size, y_size, blocks@, Seq::empty(), Seq::empty(), 0);
            match cells {
                Some(cells) => {
                    &&& forall|k: int|
                        0 <= k < setup.placements.len() ==> setup.in_bounds(
                            (#[trigger] setup.placements[k]).0,
                        )
                    &&& blocks_view(cells@) == setup.level().blocks
                    &&& cells@.len() == x_size * y_size
                },
                None => exists|k: int|
                    0 <= k < setup.placements.len() && !setup.in_bounds(
                        (#[trigger] setup.placements[k]).0,
                    ),
            }
        }),
{
    let ghost setup = setup_view(x_size, y_size, blocks@, Seq::empty(), Seq::empty(), 0);
    let ghost air = Seq::new((x_size * y_size) as nat, |i: int| BlockView::Air);
    let ghost vacated = setup.placements.map_values(
        |p: (Coordinate, BlockView)| (p.0, p.1.vacated()),
    );
    let mut cells = grid_of_air(x_size, y_size);
    let mut k: usize = 0;
    while k < blocks.len()
        invariant
            k <= blocks.len(),
            0 <= x_size,
            0 <= y_size,
            setup == setup_view(x_size, y_size, blocks@, Seq::empty(), Seq::empty(), 0),
            vacated == setup.placements.map_values(
                |p: (Coordinate, BlockView)| (p.0, p.1.vacated()),
            ),
            air.len() == x_size * y_size,
            cells@.len() == x_size * y_size,
            forall|j: int| 0 <= j < k ==> setup.in_bounds((#[trigger] setup.placements[j]).0),
            blocks_view(cells@) == placed(air, vacated.take(k as int), y_size),
        decreases blocks.len() - k,
    {
        let position = blocks[k].position;
        if !within(x_size, y_size, position) {
            assert(!setup.in_bounds(setup.placements[k as int].0));
            return None;
        }
        let index = place_of(x_size, y_size, position);
        cells[index] = blocks[k].block.vacant_copy();
        proof {
            assert(vacated.take(k + 1).drop_last() =~= vacated.take(k as int));
            assert(vacated.take(k + 1).last() == (position, blocks@[k as int].block@.vacated()));
            assert(blocks_view(cells@) =~= placed(air, vacated.take(k + 1), y_size));
        }
        k += 1;
    }
    assert(vacated.take(k as int) =~= vacated);
    Some(cells)
}

/// The statistics of a level: one for each name among `victory_conditions`,
/// with the goal of the last condition of that name.
fn gather_statistics(victory_conditions: &Vec<VictoryCondition>) -> (stats: Vec<Stat>)
    ensures
        goals_of(stats@) == merged(
            victory_conditions@.map_values(|c: VictoryCondition| (c.name@, c.goal)),
        ),
        names_distinct(stats_view(stats@)),
{
    let ghost conditions = victory_conditions@.map_values(|c: VictoryCondition| (c.name@, c.goal));
    let mut stats: Vec<Stat> = Vec::new();
    let mut k: usize = 0;
    assert(goals_of(stats@) =~= merged(conditions.take(0)));
    while k < victory_conditions.len()
        invariant
            k <= victory_conditions.len(),
            conditions == victory_conditions@.map_values(|c: VictoryCondition| (c.name@, c.goal)),
            goals_of(stats@) == merged(conditions.take(k as int)),
        decreases victory_conditions.len() - k,
    {
        let ghost before = goals_of(stats@);
        let ghost condition = conditions[k as int];
        proof {
            model::lemma_merged(conditions.take(k as int));
            assert(conditions.take(k + 1).drop_last() =~= conditions.take(k as int));
            assert(conditions.take(k + 1).last() == condition);
            lemma_goals_of(stats@, condition.0);
        }
        match find_stat(&stats, &victory_conditions[k].name) {
            Some(place) => {
                stats[place].goal = victory_conditions[k].goal;
                assert(goals_of(stats@) =~= before.update(place as int, condition));
            },
            None => {
                stats.push(
                    Stat {
                        name: victory_conditions[k].name.clone(),
                        value: 0,
                        goal: victory_conditions[k].goal,
                    },
                );
                assert(goals_of(stats@) =~= before.push(condition));
            },
        }
        k += 1;
    }
    proof {
        assert(conditions.take(k as int) =~= conditions);
        model::lemma_merged(conditions);
        lemma_goals_of(stats@, Seq::empty());
    }
    stats
}

/// A basic block without occupants, as a mathematical value.
pub open spec fn basic_block_view(
    passable: bool,
    default_slide: SlideType,
    num_goal_agents: u8,
) -> BlockView {
    BlockView::BasicBlock(
        BasicBlockView { passable, agents: Set::empty(), default_slide, num_goal_agents },
    )
}

/// What the board of `Board::new_test` is built from: five by five cells;
/// passable fast-sliding blocks at (4, 0), (0, 1), (3, 1), (2, 2) and
/// (4, 4), of which the one at (2, 2) asks for two occupants; agent 0 at
/// (4, 0) and agent 1 at (4, 4), both of which must finish; and the goal of
/// exactly one satisfied block.
pub open spec fn test_setup() -> SetupView {
    SetupView {
        x_size: 5,
        y_size: 5,
        placements: seq![
            (Coordinate { x: 4, y: 0 }, basic_block_view(true, SlideType::FastSlide, 0)),
            (Coordinate { x: 0, y: 1 }, basic_block_view(true, SlideType::FastSlide, 0)),
            (Coordinate { x: 3, y: 1 }, basic_block_view(true, SlideType::FastSlide, 0)),
            (Coordinate { x: 2, y: 2 }, basic_block_view(true, SlideType::FastSlide, 2)),
            (Coordinate { x: 4, y: 4 }, basic_block_view(true, SlideType::FastSlide, 0)),
        ],
        conditions: seq![(blocks::blocks_satisfied(), GoalType::Exactly(1))],
        starts: seq![Coordinate { x: 4, y: 0 }, Coordinate { x: 4, y: 4 }],
        must_finish: 2,
    }
}

/// A board can be built from `test_setup()`.
proof fn lemma_test_setup()
    ensures
        test_setup().error() is None,
{
    let setup = test_setup();
    let level = setup.level();
    let air = Seq::new(25, |i: int| BlockView::Air);
    let vacated = setup.placements.map_values(|p: (Coordinate, BlockView)| (p.0, p.1.vacated()));
    let four = vacated.drop_last();
    let three = four.drop_last();
    let two = three.drop_last();
    let one = two.drop_last();
    assert(one.drop_last().len() == 0);
    let after_one = placed(air, one, 5);
    let after_two = placed(air, two, 5);
    let after_three = placed(air, three, 5);
    let after_four = placed(air, four, 5);
    let after_all = placed(air, vacated, 5);
    assert(placed(air, one.drop_last(), 5) == air);
    assert(after_one == air.update(20, vacated[0].1));
    assert(after_two == after_one.update(1, vacated[1].1));
    assert(after_three == after_two.update(16, vacated[2].1));
    assert(after_four == after_three.update(12, vacated[3].1));
    assert(after_all == after_four.update(24, vacated[4].1));
    assert(level.blocks == after_all);
    assert(level.blocks.len() == 25);
    assert(level.blocks[20] == vacated[0].1);
    assert(level.blocks[24] == vacated[4].1);
    assert(setup.start_fits(0));
    assert(setup.start_fits(1));
    model::lemma_cell_sets_finite(level.blocks);
    vstd::set_lib::lemma_int_range(0, 25);
    assert(goal_cells(level.blocks).subset_of(vstd::set_lib::set_int_range(0, 25)));
    vstd::set_lib::lemma_len_subset(goal_cells(level.blocks), vstd::set_lib::set_int_range(0, 25));
    let conditions = setup.conditions;
    assert(conditions.drop_last().len() == 0);
    assert(merged(conditions.drop_last()) =~= Seq::empty());
    assert(!has_goal(merged(conditions.drop_last()), conditions.last().0));
    assert(merged(conditions) =~= seq![conditions[0]]);
    assert(level.goals[0].0 == blocks::blocks_satisfied());
    assert(level.tracks(blocks::blocks_satisfied()));
}

/// No block of a level that is asked for has occupants.
proof fn lemma_laid_out_vacant(setup: SetupView, i: int)
    requires
        0 <= setup.x_size,
        0 <= setup.y_size,
        forall|k: int|
            0 <= k < setup.placements.len() ==> setup.in_bounds((#[trigger] setup.placements[k]).0),
        0 <= i < setup.level().blocks.len(),
    ensures
        setup.level().blocks[i].vacated() == setup.level().blocks[i],
{
    let air = Seq::new((setup.x_size * setup.y_size) as nat, |i: int| BlockView::Air);
    let vacated = setup.placements.map_values(|p: (Coordinate, BlockView)| (p.0, p.1.vacated()));
    let (x, y) = (setup.x_size as int, setup.y_size as int);
    assert(0 <= x * y) by (nonlinear_arith)
        requires
            0 <= x,
            0 <= y,
    ;
    assert forall|k: int| 0 <= k < vacated.len() implies 0 <= (#[trigger] vacated[k]).0.x
        * setup.y_size + vacated[k].0.y < air.len() by {
        let c = setup.placements[k].0;
        assert(setup.in_bounds(c));
        let (cx, cy) = (c.x as int, c.y as int);
        assert(0 <= cx * y + cy < x * y) by (nonlinear_arith)
            requires
                0 <= cx < x,
                0 <= cy < y,
        ;
    }
    model::lemma_placed_len(air, vacated, setup.y_size);
    lemma_placed_vacant(air, vacated, setup.y_size, i);
}

/// Putting blocks without occupants into a grid without occupants leaves
/// it without occupants.
proof fn lemma_placed_vacant(
    cells: Seq<BlockView>,
    placements: Seq<(Coordinate, BlockView)>,
    y_size: Index,
    i: int,
)
    requires
        forall|j: int| 0 <= j < cells.len() ==> (#[trigger] cells[j]).vacated() == cells[j],
        forall|k: int|
            0 <= k < placements.len() ==> (#[trigger] placements[k]).1.vacated()
                == placements[k].1,
        forall|k: int|
            0 <= k < placements.len() ==> 0 <= (#[trigger] placements[k]).0.x * y_size
                + placements[k].0.y < cells.len(),
        0 <= i < cells.len(),
    ensures
        placed(cells, placements, y_size).len() == cells.len(),
        placed(cells, placements, y_size)[i].vacated() == placed(cells, placements, y_size)[i],
    decreases placements.len(),
{
    if placements.len() > 0 {
        let earlier = placements.drop_last();
        let (at, block) = placements.last();
        assert(block.vacated() == block);
        assert forall|k: int| 0 <= k < earlier.len() implies (#[trigger] earlier[k]).1.vacated()
            == earlier[k].1 && 0 <= earlier[k].0.x * y_size + earlier[k].0.y < cells.len() by {
            assert(earlier[k] == placements[k]);
        }
        lemma_placed_vacant(cells, earlier, y_size, i);
    }
}

/// The number of blocks among `cells` that ask for occupants.
fn count_goal_blocks(cells: &Vec<Block>) -> (count: usize)
    ensures
        count == goal_cells(blocks_view(cells@)).len(),
{
    let ghost view = blocks_view(cells@);
    let mut count: usize = 0;
    let mut i: usize = 0;
    assert(goal_cells(view.take(0)) =~= Set::<int>::empty());
    while i < cells.len()
        invariant
            i <= cells.len(),
            view == blocks_view(cells@),
            count <= i,
            count == goal_cells(view.take(i as int)).len(),
        decreases cells.len() - i,
    {
        proof {
            model::lemma_cell_sets_finite(view.take(i as int));
            assert(goal_cells(view.take(i + 1)) =~= if view[i as int].is_goal() {
                goal_cells(view.take(i as int)).insert(i as int)
            } else {
                goal_cells(view.take(i as int))
            });
        }
        if cells[i].is_goal() {
            count += 1;
        }
        i += 1;
    }
    assert(view.take(i as int) =~= view);
    count
}

/// How the statistics and their names and goals hang together.
proof fn lemma_goals_of(stats: Seq<Stat>, name: Seq<char>)
    ensures
        has_goal(goals_of(stats), name) == is_tracked(stats_view(stats), name),
        is_tracked(stats_view(stats), name) && names_distinct(stats_view(stats)) ==> goal_index(
            goals_of(stats),
            name,
        ) == stat_index(stats_view(stats), name),
        names_distinct(stats_view(stats)) == (forall|i: int, j: int|
            0 <= i < goals_of(stats).len() && 0 <= j < goals_of(stats).len() && (
            #[trigger] goals_of(stats)[i]).0 == (#[trigger] goals_of(stats)[j]).0 ==> i == j),
{
    let goals = goals_of(stats);
    let view = stats_view(stats);
    if has_goal(goals, name) {
        let j = goal_index(goals, name);
        assert(view[j].name == name);
    }
    if is_tracked(view, name) {
        let i = stat_index(view, name);
        assert(goals[i].0 == name);
        if names_distinct(view) {
            let j = goal_index(goals, name);
            assert(view[j].name == view[i].name);
        }
    }
    if names_distinct(view) {
        assert forall|i: int, j: int|
            0 <= i < goals.len() && 0 <= j < goals.len() && (#[trigger] goals[i]).0 == (
            #[trigger] goals[j]).0 implies i == j by {
            assert(view[i].name == view[j].name);
        }
    }
    if forall|i: int, j: int|
        0 <= i < goals.len() && 0 <= j < goals.len() && (#[trigger] goals[i]).0 == (
        #[trigger] goals[j]).0 ==> i == j {
        assert forall|i: int, j: int|
            0 <= i < view.len() && 0 <= j < view.len() && #[trigger] view[i].name
                == #[trigger] view[j].name implies i == j by {
            assert(goals[i].0 == goals[j].0);
        }
    }
}

pub struct Board {
    board: Vec<Block>,
    /// The blocks that the board started with, from which it is rebuilt.
    board_start_configuration: Vec<Block>,
    x_size: Index,
    y_size: Index,
    num_agents: u8,
    num_agents_alive: u8,
    num_agents_must_finish: u8,
    statistics: Vec<Stat>,
    agent_positions: Vec<Coordinate>,
    agent_start_positions: Vec<Coordinate>,
    game_state: GameState,
    action_stack: Vec<PlayerInput>,
}

/// What an action reports back; nothing yet.
pub struct ActionLog {}

impl View for Board {
    type V = BoardView;

    closed spec fn view(&self) -> BoardView {
        BoardView {
            x_size: self.x_size,
            y_size: self.y_size,
            cells: blocks_view(self.board@),
            positions: self.agent_positions@,
            alive: self.num_agents_alive,
            must_finish: self.num_agents_must_finish,
            stats: stats_view(self.statistics@),
            state: self.game_state,
        }
    }
}

impl Board {
    /// The inputs that led from the start of the level to the board as it
    /// is, oldest first.
    pub closed spec fn log(&self) -> Seq<PlayerInput> {
        self.action_stack@
    }

    /// The level that the board started from.
    pub closed spec fn level(&self) -> LevelView {
        LevelView {
            x_size: self.x_size,
            y_size: self.y_size,
            blocks: blocks_view(self.board_start_configuration@).map_values(
                |block: BlockView| block.vacated(),
            ),
            starts: self.agent_start_positions@,
            must_finish: self.num_agents_must_finish,
            goals: self.statistics@.map_values(|stat: Stat| (stat.name@, stat.goal)),
        }
    }

    /// Whether the board has a level that it can start from.
    pub closed spec fn configured(&self) -> bool {
        &&& self.num_agents == self.agent_start_positions@.len()
        &&& self.level().valid()
    }

    /// Whether the fields outside the view fit the view.
    pub closed spec fn consistent(&self) -> bool {
        &&& self.num_agents == self.agent_positions@.len()
        &&& self.configured()
    }

    /// What holds of a board between any two steps of its rules: the
    /// invariants of the board, on a valid level.
    pub open spec fn steady(&self) -> bool {
        &&& self.consistent()
        &&& self@.inv()
    }

    /// What holds of a board whenever it is at rest: its invariants, and that
    /// it is what the logged inputs make of the start of its level.
    pub open spec fn wf(&self) -> bool {
        &&& self.steady()
        &&& self.level().start().allows_all(self.log())
        &&& self@ == self.level().start().replay(self.log())
    }

    pub fn get_game_state(&self) -> (state: GameState)
        ensures
            state == self@.state,
    {
        self.game_state
    }

    /// The extent of the grid along `x` and along `y`.
    pub fn get_dimensions(&self) -> (dimensions: (Index, Index))
        ensures
            dimensions == (self@.x_size, self@.y_size),
    {
        (self.x_size, self.y_size)
    }

    fn out_of_bounds(&self, coordinate: Coordinate) -> (outside: bool)
        ensures
            outside == !self@.in_bounds(coordinate),
    {
        coordinate.x >= self.x_size || coordinate.x < 0 || coordinate.y >= self.y_size
            || coordinate.y < 0
    }

    fn coordinate_to_index(&self, coordinate: Coordinate) -> (index: usize)
        requires
            self@.grid_complete(),
            self@.in_bounds(coordinate),
        ensures
            index == self@.index(coordinate),
            index < self@.cells.len(),
    {
        proof {
            model::lemma_index_in_range(self@, coordinate);
            let (x, ys) = (coordinate.x as int, self.y_size as int);
            assert(0 <= x * ys <= 127 * 127) by (nonlinear_arith)
                requires
                    0 <= x <= 127,
                    0 <= ys <= 127,
            ;
        }
        coordinate.x as usize * self.y_size as usize + coordinate.y as usize
    }

    /// The block at `coordinate`.
    pub fn read_block(&self, coordinate: Coordinate) -> (block: &Block)
        requires
            self@.grid_complete(),
            self@.in_bounds(coordinate),
        ensures
            block@ == self@.cell(coordinate),
    {
        let index = self.coordinate_to_index(coordinate);
        &self.board[index]
    }

    /// The place of the statistic named `name`, if it is tracked.
    fn find_statistic(&self, name: &String) -> (place: Option<usize>)
        requires
            names_distinct(self@.stats),
        ensures
            match place {
                Some(i) => is_tracked(self@.stats, name@) && i == stat_index(self@.stats, name@),
                None => !is_tracked(self@.stats, name@),
            },
    {
        find_stat(&self.statistics, name)
    }

    /// Makes the changes of `update` to the statistics, in order.
    fn process_update(&mut self, update: StatusUpdate)
        requires
            names_distinct(old(self)@.stats),
            changes_fit(old(self)@.stats, update@),
        ensures
            final(self)@ == old(self)@.updated(update@),
            names_distinct(final(self)@.stats),
            final(self).level() == old(self).level(),
            final(self).log() == old(self).log(),
            old(self).consistent() ==> final(self).consistent(),
    {
        let ghost before = self@;
        let ghost changes = update@;
        let mut i: usize = 0;
        assert(changes.skip(0) =~= changes);
        while i < update.progress_updates.len()
            invariant
                i <= update.progress_updates.len(),
                changes == update@,
                changes.len() == update.progress_updates.len(),
                names_distinct(self@.stats),
                changes_fit(self@.stats, changes.skip(i as int)),
                apply_changes(self@.stats, changes.skip(i as int)) == apply_changes(
                    before.stats,
                    changes,
                ),
                self@ == (BoardView { stats: self@.stats, ..before }),
                self.level() == old(self).level(),
                self.log() == old(self).log(),
                old(self).consistent() ==> self.consistent(),
            decreases update.progress_updates.len() - i,
        {
            let ghost rest = changes.skip(i as int);
            let ghost change = changes[i as int];
            let ghost stats = self@.stats;
            assert(rest[0] == change);
            assert(rest.drop_first() =~= changes.skip(i + 1));
            assert(change == update.progress_updates@[i as int]@);
            let (name, amount) = match &update.progress_updates[i] {
                ProgressUpdates::IncreaseStat(name, amount) => (name, *amount),
                ProgressUpdates::DecreaseStat(name, amount) => (name, *amount),
                ProgressUpdates::SetStat(name, amount) => (name, *amount),
            };
            assert(name@ == change.name());
            match self.find_statistic(name) {
                Some(place) => {
                    let value = self.statistics[place].value;
                    let changed = match &update.progress_updates[i] {
                        ProgressUpdates::IncreaseStat(_, _) => value + amount,
                        ProgressUpdates::DecreaseStat(_, _) => value - amount,
                        ProgressUpdates::SetStat(_, _) => amount,
                    };
                    assert(changed == change.apply(value));
                    self.statistics[place].value = changed;
                    proof {
                        assert(self@.stats =~= apply_change(stats, change));
                        assert(self.level().goals =~= old(self).level().goals);
                        assert forall|a: int, b: int|
                            0 <= a < self@.stats.len() && 0 <= b < self@.stats.len()
                                && #[trigger] self@.stats[a].name
                                == #[trigger] self@.stats[b].name implies a == b by {
                            assert(stats[a].name == stats[b].name);
                        }
                    }
                },
                None => {},
            }
            i += 1;
        }
        assert(changes.skip(i as int) =~= Seq::<StatChange>::empty());
    }

    /// Looks at the victory conditions: a lost game stays lost; otherwise
    /// the game is won exactly if every statistic meets its goal.
    fn check_victory(&mut self)
        ensures
            final(self)@ == old(self)@.after_check(),
            final(self).level() == old(self).level(),
            final(self).log() == old(self).log(),
            old(self).consistent() ==> final(self).consistent(),
    {
        let mut all_satisfied = true;
        let mut i: usize = 0;
        while i < self.statistics.len() && all_satisfied
            invariant
                i <= self.statistics.len(),
                all_satisfied ==> forall|j: int|
                    0 <= j < i ==> (#[trigger] self@.stats[j]).goal.met_by(self@.stats[j].value),
                !all_satisfied ==> !all_goals_met(self@.stats),
            decreases self.statistics.len() - i,
        {
            if !self.statistics[i].goal.is_met(self.statistics[i].value) {
                assert(!self@.stats[i as int].goal.met_by(self@.stats[i as int].value));
                all_satisfied = false;
            }
            i += 1;
        }
        if self.game_state != GameState::Lost {
            if all_satisfied {
                self.game_state = GameState::Won;
            } else {
                self.game_state = GameState::Running;
            }
        }
    }

    /// Takes `agent` out of the block at `coordinate` and makes what that
    /// reports to the statistics.
    fn remove_agent_at(&mut self, coordinate: Coordinate, agent: AgentID)
        requires
            old(self)@.grid_complete(),
            old(self)@.satisfied_in_range(),
            old(self)@.in_bounds(coordinate),
            old(self)@.cell(coordinate).supports_agents(),
        ensures
            final(self)@ == old(self)@.with_removed(coordinate, agent),
            final(self).level() == old(self).level(),
            final(self).log() == old(self).log(),
            old(self).consistent() ==> final(self).consistent(),
    {
        let index = self.coordinate_to_index(coordinate);
        proof {
            self@.lemma_with_removed(coordinate, agent);
        }
        let update = self.board[index].remove_agent(agent);
        assert(self@.cells =~= old(self)@.cells.update(
            index as int,
            old(self)@.cell(coordinate).removed(agent),
        ));
        self.process_update(update);
    }

    /// Puts `agent` into the block at place `index` and makes what that
    /// reports to the statistics.
    fn enter_agent_at(&mut self, index: usize, agent: AgentID)
        requires
            old(self)@.grid_complete(),
            old(self)@.satisfied_in_range(),
            index < old(self)@.cells.len(),
            old(self)@.cells[index as int].supports_agents(),
            !old(self)@.cells[index as int].agents().contains(agent),
        ensures
            final(self)@ == old(self)@.with_entered(index as int, agent),
            final(self).level() == old(self).level(),
            final(self).log() == old(self).log(),
            old(self).consistent() ==> final(self).consistent(),
    {
        proof {
            self@.lemma_with_entered(index as int, agent);
        }
        let update = self.board[index].enter_agent(agent);
        assert(self@.cells =~= old(self)@.cells.update(
            index as int,
            old(self)@.cells[index as int].entered(agent),
        ));
        self.process_update(update);
    }

    /// Where the statistic named `name` stands, if it is tracked.
    pub fn get_progress(&self, name: &str) -> (value: Option<u8>)
        requires
            self.wf(),
        ensures
            match value {
                Some(value) => is_tracked(self@.stats, name@) && value == self@.stats[stat_index(
                    self@.stats,
                    name@,
                )].value,
                None => !is_tracked(self@.stats, name@),
            },
    {
        match self.find_statistic(&String::from_str(name)) {
            Some(place) => Some(self.statistics[place].value),
            None => None,
        }
    }

    /// The number of agents that are still on the board.
    pub fn get_num_agents_alive(&self) -> (count: u8)
        ensures
            count == self@.alive,
    {
        self.num_agents_alive
    }

    /// Where `agent` is; `Coordinate::out_of_bound()` once it has been
    /// ejected.
    pub fn get_agent_position(&self, agent: AgentID) -> (position: Coordinate)
        requires
            self.wf(),
            agent < self@.positions.len(),
        ensures
            position == self@.positions[agent as int],
    {
        self.agent_positions[agent as usize]
    }

    /// The number of inputs that have been given and not undone.
    pub fn get_num_actions(&self) -> (count: usize)
        ensures
            count == self.log().len(),
    {
        self.action_stack.len()
    }

    /// The number of agents that the board started with.
    pub fn get_num_agents(&self) -> (count: u8)
        requires
            self.wf(),
        ensures
            count == self@.positions.len(),
    {
        self.num_agents
    }

    /// Whether `agent` can step in `direction`: the cell there is in range
    /// and lets agents in. Nothing changes. The game must be running and the
    /// agent be one of the board's.
    pub fn can_move_agent(&self, agent: AgentID, direction: Direction) -> (possible: bool)
        requires
            self.wf(),
            agent < self@.positions.len(),
            self@.state == GameState::Running,
        ensures
            possible == self@.can_move(agent, direction),
    {
        let current = self.agent_positions[agent as usize];
        proof {
            self@.lemma_neighbour(current, direction);
        }
        let target_coordinate = current.move_direction(direction);
        if self.out_of_bounds(target_coordinate) {
            false
        } else {
            self.read_block(target_coordinate).can_enter(direction)
        }
    }

    /// Asks `agent` to step in `direction`. The input is logged; the agent
    /// steps where it can; the victory conditions are looked at either way.
    /// The game must be running and the agent be one of the board's.
    pub fn move_agent(&mut self, agent: AgentID, direction: Direction) -> (log: ActionLog)
        requires
            old(self).wf(),
            old(self)@.allows(PlayerInput::Move(agent, direction)),
        ensures
            final(self).wf(),
            final(self)@ == old(self)@.moved(agent, direction),
            final(self).log() == old(self).log().push(PlayerInput::Move(agent, direction)),
            final(self).level() == old(self).level(),
    {
        let ghost before = self@;
        proof {
            before.lemma_moved_inv(agent, direction);
        }
        self.action_stack.push(PlayerInput::Move(agent, direction));
        let current_coordinate = self.agent_positions[agent as usize];
        proof {
            before.lemma_neighbour(current_coordinate, direction);
        }
        let target_coordinate = current_coordinate.move_direction(direction);
        if !self.out_of_bounds(target_coordinate) && self.read_block(target_coordinate).can_enter(
            direction,
        ) {
            proof {
                before.lemma_move_possible(agent, direction);
                before.lemma_with_removed(current_coordinate, agent);
            }
            let target_index = self.coordinate_to_index(target_coordinate);
            self.remove_agent_at(current_coordinate, agent);
            proof {
                let left = before.with_removed(current_coordinate, agent);
                assert(self@ == left);
                model::lemma_index_in_range(before, current_coordinate);
                assert(left.cell(target_coordinate) == left.cells[target_index as int]);
                if before.index(current_coordinate) == target_index {
                    assert(left.cells[target_index as int] == before.cell(
                        current_coordinate,
                    ).removed(agent));
                } else {
                    assert(left.cells[target_index as int] == before.cells[target_index as int]);
                }
            }
            self.enter_agent_at(target_index, agent);
            self.agent_positions[agent as usize] = target_coordinate;
        }
        self.check_victory();
        proof {
            let input = PlayerInput::Move(agent, direction);
            assert(self.log().drop_last() =~= old(self).log());
            assert(self.log().last() == input);
        }
        ActionLog {  }
    }

    /// Tells the block at place `index` that it is about to be removed for
    /// good, and makes what that reports to the statistics.
    fn destroy_block(&mut self, index: usize)
        requires
            names_distinct(old(self)@.stats),
            index < old(self)@.cells.len(),
        ensures
            final(self)@ == old(self)@,
            final(self).level() == old(self).level(),
            final(self).log() == old(self).log(),
            old(self).consistent() ==> final(self).consistent(),
    {
        let (_, update) = self.board[index].on_destruction();
        proof {
            model::lemma_apply_one(self@.stats, StatChange::Increase(blocks::blocks_satisfied(), 1));
        }
        self.process_update(update);
    }

    /// Takes the block at `start` to `end`.
    ///
    /// Out of range, the block is ejected: its occupants are off the board
    /// from then on, and the game is lost if fewer agents are left than must
    /// finish. In range, the block takes the place of the one at `end`, whose
    /// occupants enter it. Either way air is left at `start`.
    fn move_block(&mut self, start: Coordinate, end: Coordinate)
        requires
            old(self).steady(),
            old(self)@.can_relocate(start, end),
        ensures
            final(self).steady(),
            final(self)@ == old(self)@.relocated(start, end),
            final(self).level() == old(self).level(),
            final(self).log() == old(self).log(),
    {
        let ghost before = self@;
        let ejected = self.out_of_bounds(end);
        let target = if ejected {
            Coordinate::out_of_bound()
        } else {
            end
        };
        let start_index = self.coordinate_to_index(start);
        let agents_start = self.board[start_index].get_agents();
        let ghost occupants = before.cell(start).agents();
        proof {
            before.lemma_relocated_inv(start, end);
        }
        let mut agent: u8 = 0;
        while agent < self.num_agents
            invariant
                agent <= self.num_agents,
                self.consistent(),
                agents_start@ == occupants,
                self.agent_positions@.len() == before.positions.len(),
                forall|a: int|
                    0 <= a < before.positions.len() ==> #[trigger] self.agent_positions@[a] == if a
                        < agent && occupants.contains(a as AgentID) {
                        target
                    } else {
                        before.positions[a]
                    },
                self@ == (BoardView { positions: self.agent_positions@, ..before }),
                self.level() == old(self).level(),
                self.log() == old(self).log(),
            decreases self.num_agents - agent,
        {
            if agents_start.contains(&agent) {
                self.agent_positions[agent as usize] = target;
            }
            agent += 1;
        }
        assert(self.agent_positions@ =~= before.carried(occupants, target));
        if ejected {
            proof {
                before.lemma_ejected_inv(start, end);
                crate::backend::blocks::lemma_agents_finite(occupants);
            }
            self.num_agents_alive -= agents_start.len() as u8;
            if self.num_agents_alive < self.num_agents_must_finish {
                self.game_state = GameState::Lost;
            }
            self.destroy_block(start_index);
            self.board[start_index] = Block::Air(Air::new());
            assert(self@.cells =~= before.cells.update(start_index as int, BlockView::Air));
        } else {
            let end_index = self.coordinate_to_index(end);
            let agents_end = self.board[end_index].get_agents();
            let ghost residents = before.cell(end).agents();
            let ghost base = before.displaced(start, end);
            proof {
                before.lemma_displaced(start, end);
            }
            self.destroy_block(end_index);
            let mut moved = Block::Air(Air::new());
            core::mem::swap(&mut self.board[start_index], &mut moved);
            self.board[end_index] = moved;
            assert(self@.cells =~= base.cells);
            let mut agent: u8 = 0;
            while agent < self.num_agents
                invariant
                    agent <= self.num_agents,
                    self.consistent(),
                    agents_end@ == residents,
                    base.grid_complete(),
                    base.satisfied_in_range(),
                    end_index < base.cells.len(),
                    residents.disjoint(base.cells[end_index as int].agents()),
                    forall|a: AgentID| #[trigger]
                        residents.contains(a) ==> base.cells[end_index as int].supports_agents(),
                    self@ == base.settled(end_index as int, residents, agent as nat),
                    self.level() == old(self).level(),
                    self.log() == old(self).log(),
                decreases self.num_agents - agent,
            {
                proof {
                    base.lemma_settled(end_index as int, residents, agent as nat);
                }
                if agents_end.contains(&agent) {
                    self.enter_agent_at(end_index, agent);
                }
                agent += 1;
            }
        }
    }

    /// Asks `start_agent` to slide in `direction`. The input is logged; the
    /// block that the agent stands on slides, if it is one that does: step by
    /// step it takes the place of cells that offer no resistance, until a
    /// cell stops it or it leaves the board, and the victory conditions are
    /// looked at after every step. A slide of more than
    /// `MAXIMUM_STEP_NUMBER` steps is cut short and loses the game. The game
    /// must be running and the agent stand on the board.
    pub fn slide_agent(&mut self, start_agent: AgentID, direction: Direction) -> (log: ActionLog)
        requires
            old(self).wf(),
            old(self)@.allows(PlayerInput::Slide(start_agent, direction)),
        ensures
            final(self).wf(),
            final(self)@ == old(self)@.slid(start_agent, direction),
            final(self).log() == old(self).log().push(PlayerInput::Slide(start_agent, direction)),
            final(self).level() == old(self).level(),
    {
        let ghost before = self@;
        let ghost goal = before.slid(start_agent, direction);
        let ghost input = PlayerInput::Slide(start_agent, direction);
        self.action_stack.push(PlayerInput::Slide(start_agent, direction));
        proof {
            assert(self.log().drop_last() =~= old(self).log());
            assert(self.log().last() == input);
        }
        let mut current_coordinate = self.agent_positions[start_agent as usize];
        let start_index = self.coordinate_to_index(current_coordinate);
        assert(before.cell(current_coordinate).agents().contains(start_agent));
        let (slide_type, update) = self.board[start_index].start_slide(direction);
        assert(self@.cells =~= before.cells);
        proof {
            model::lemma_apply_one(self@.stats, StatChange::Increase(blocks::blocks_satisfied(), 1));
        }
        self.process_update(update);
        let mut current_sliding = slide_type;
        let mut steps_so_far: usize = 0;
        while current_sliding != SlideType::NoSlide
            invariant
                old(self).wf(),
                before == old(self)@,
                before.allows(input),
                input == PlayerInput::Slide(start_agent, direction),
                goal == before.slid(start_agent, direction),
                self.steady(),
                self.level() == old(self).level(),
                self.log() == old(self).log().push(input),
                steps_so_far <= MAXIMUM_STEP_NUMBER,
                current_sliding != SlideType::NoSlide ==> {
                    &&& self@.in_bounds(current_coordinate)
                    &&& self@.cell(current_coordinate).supports_agents()
                    &&& goal == self@.slide_on(current_coordinate, direction, steps_so_far as nat)
                },
                current_sliding == SlideType::NoSlide ==> goal == self@,
            decreases
                    MAXIMUM_STEP_NUMBER + 1 - steps_so_far,
                    if current_sliding == SlideType::NoSlide {
                        0nat
                    } else {
                        1nat
                    },
        {
            let ghost here = self@;
            let ghost steps = steps_so_far as nat;
            proof {
                here.lemma_neighbour(current_coordinate, direction);
                here.lemma_after_check_inv();
                assert(self.log().drop_last() =~= old(self).log());
                assert(self.log().last() == input);
            }
            let target_coordinate = current_coordinate.move_direction(direction);
            if self.out_of_bounds(target_coordinate) {
                self.move_block(current_coordinate, Coordinate::out_of_bound());
                assert(goal == self@.after_step(steps + 1));
                current_coordinate = Coordinate::out_of_bound();
                current_sliding = SlideType::NoSlide;
            } else {
                let target_index = self.coordinate_to_index(target_coordinate);
                let (hit, update) = self.board[target_index].on_hit(direction);
                assert(self@.cells =~= here.cells);
                proof {
                    model::lemma_apply_one(
                        self@.stats,
                        StatChange::Increase(blocks::blocks_satisfied(), 1),
                    );
                }
                self.process_update(update);
                assert(self@ == here);
                match hit {
                    HitResult::Stop => {
                        assert(goal == self@.after_step(steps + 1));
                        current_sliding = SlideType::NoSlide;
                    },
                    HitResult::NoResistance => {
                        proof {
                            assert(here.cell(target_coordinate) == BlockView::Air);
                            here.lemma_replaced_inv(current_coordinate, target_coordinate);
                        }
                        self.move_block(current_coordinate, target_coordinate);
                        assert(goal == self@.slide_after(target_coordinate, direction, steps + 1));
                        current_coordinate = target_coordinate;
                    },
                    HitResult::MoveTo(new_position) => {
                        // No block answers so yet.
                        self.move_block(current_coordinate, new_position);
                        if self.out_of_bounds(new_position) {
                            current_coordinate = Coordinate::out_of_bound();
                            current_sliding = SlideType::NoSlide;
                        } else {
                            current_coordinate = new_position;
                        }
                    },
                }
            }
            steps_so_far += 1;
            proof {
                self@.lemma_after_check_inv();
            }
            if steps_so_far > MAXIMUM_STEP_NUMBER {
                self.game_state = GameState::Lost;
                return ActionLog {  };
            }
            self.check_victory();
        }
        ActionLog {  }
    }

    /// Puts the board back to the start of its level, but for the action
    /// stack: every cell is rebuilt from the block that the level has there,
    /// every agent enters where it starts, nothing has been counted but what
    /// the agents satisfy by standing there, and the game is running.
    fn reset_game(&mut self)
        requires
            old(self).configured(),
        ensures
            final(self).steady(),
            final(self)@ == old(self).level().start(),
            final(self).level() == old(self).level(),
            final(self).log() == old(self).log(),
    {
        let ghost level = self.level();
        let mut place: usize = 0;
        while place < self.statistics.len()
            invariant
                place <= self.statistics.len(),
                self.configured(),
                self.level() == level,
                self.log() == old(self).log(),
                forall|j: int| 0 <= j < place ==> (#[trigger] self.statistics@[j]).value == 0,
            decreases self.statistics.len() - place,
        {
            let ghost before = self.statistics@;
            self.statistics[place].value = 0;
            proof {
                assert(self.level().goals =~= level.goals);
                assert(self.level().blocks =~= level.blocks);
            }
            place += 1;
        }
        let mut cells: Vec<Block> = Vec::new();
        let mut index: usize = 0;
        while index < self.board_start_configuration.len()
            invariant
                index <= self.board_start_configuration.len(),
                cells@.len() == index,
                forall|i: int|
                    0 <= i < index ==> (#[trigger] cells@[i])@
                        == self.board_start_configuration@[i]@.vacated(),
            decreases self.board_start_configuration.len() - index,
        {
            cells.push(self.board_start_configuration[index].vacant_copy());
            index += 1;
        }
        self.board = cells;
        self.num_agents_alive = self.num_agents;
        self.agent_positions = self.agent_start_positions.clone();
        self.game_state = GameState::Running;
        proof {
            assert(self.agent_positions@ =~= self.agent_start_positions@);
            assert(self.level().goals =~= level.goals);
            assert(self.level().blocks =~= level.blocks);
            let start = level.start_with(0);
            assert(self@.cells =~= start.cells) by {
                assert forall|i: int| 0 <= i < start.cells.len() implies self@.cells[i]
                    == start.cells[i] by {
                    assert(level.starters(i, 0) =~= Set::<AgentID>::empty());
                }
            }
            assert(model::counted_cells(start.cells) =~= Set::<int>::empty()) by {
                assert forall|i: int| 0 <= i < start.cells.len() implies !(
                #[trigger] start.cells[i]).is_counted() by {
                    assert(level.starters(i, 0) =~= Set::<AgentID>::empty());
                }
            }
            assert(self@.stats =~= start.stats);
            assert(self@ == start);
        }
        let mut agent: u8 = 0;
        while agent < self.num_agents
            invariant
                agent <= self.num_agents,
                self.consistent(),
                self.level() == level,
                self.log() == old(self).log(),
                self@ == level.start_with(agent as nat),
            decreases self.num_agents - agent,
        {
            proof {
                level.lemma_start_with(agent as nat);
                level.lemma_start_next(agent);
            }
            let start = self.agent_positions[agent as usize];
            let index = self.coordinate_to_index(start);
            self.enter_agent_at(index, agent);
            agent += 1;
        }
        proof {
            level.lemma_start_inv();
        }
    }

    /// Takes back the last input: the board is put back to the start of its
    /// level and the inputs before the last are replayed in order. Nothing
    /// changes where no input has been given.
    pub fn undo(&mut self)
        requires
            old(self).wf(),
        ensures
            final(self).wf(),
            final(self).level() == old(self).level(),
            final(self).log() == undone(old(self).log()),
            final(self)@ == old(self).level().start().replay(undone(old(self).log())),
    {
        if self.action_stack.is_empty() {
            return ;
        }
        let ghost level = self.level();
        let ghost log = self.log();
        self.action_stack.pop();
        let action_stack_frozen: Vec<PlayerInput> = self.action_stack.clone();
        assert(action_stack_frozen@ =~= log.drop_last());
        self.reset_game();
        self.action_stack.clear();
        let mut done: usize = 0;
        while done < action_stack_frozen.len()
            invariant
                done <= action_stack_frozen.len(),
                action_stack_frozen@ == log.drop_last(),
                log.len() > 0,
                level.start().allows_all(log),
                self.wf(),
                self.level() == level,
                self.log() == action_stack_frozen@.take(done as int),
            decreases action_stack_frozen.len() - done,
        {
            proof {
                level.start().lemma_allows_prefix(log, done as int);
                assert(log.take(done as int) =~= action_stack_frozen@.take(done as int));
                assert(action_stack_frozen@.take(done + 1) =~= action_stack_frozen@.take(
                    done as int,
                ).push(action_stack_frozen@[done as int]));
            }
            match action_stack_frozen[done] {
                PlayerInput::Move(agent, direction) => {
                    self.move_agent(agent, direction);
                },
                PlayerInput::Slide(agent, direction) => {
                    self.slide_agent(agent, direction);
                },
            }
            done += 1;
        }
        assert(action_stack_frozen@.take(done as int) =~= action_stack_frozen@);
    }

    /// A board at the start of a level.
    ///
    /// The grid has `x_size` by `y_size` cells, of air but for `blocks`,
    /// which are taken without their occupants; a later block replaces an
    /// earlier one in the same cell. Agent `a` enters the block at
    /// `agent_starts[a]`. There is one statistic for each name among
    /// `victory_conditions`, at zero but for the blocks that the agents
    /// satisfy where they start. The game is running and no input has been
    /// given.
    pub fn new(
        x_size: Index,
        y_size: Index,
        blocks: &Vec<Placement>,
        victory_conditions: &Vec<VictoryCondition>,
        agent_starts: Vec<Coordinate>,
        num_agents_must_finish: u8,
    ) -> (result: Result<Board, String>)
        ensures
            ({
                let setup = setup_view(
                    x_size,
                    y_size,
                    blocks@,
                    victory_conditions@,
                    agent_starts@,
                    num_agents_must_finish,
                );
                match result {
                    Ok(board) => {
                        &&& setup.error() is None
                        &&& board.wf()
                        &&& board.log() == Seq::<PlayerInput>::empty()
                        &&& board.level() == setup.level()
                        &&& board@ == setup.level().start()
                    },
                    Err(message) => setup.error() == Some(message@),
                }
            }),
    {
        let ghost setup = setup_view(
            x_size,
            y_size,
            blocks@,
            victory_conditions@,
            agent_starts@,
            num_agents_must_finish,
        );
        let ghost level = setup.level();
        if x_size < 0 || y_size < 0 {
            return Err(String::from_str("Board dimensions must not be negative"));
        }
        let cells = match lay_out(x_size, y_size, blocks) {
            Some(cells) => cells,
            None => {
                return Err(String::from_str("Block out of bounds"));
            },
        };
        assert(blocks_view(cells@) == level.blocks);
        assert forall|k: int| 0 <= k < setup.placements.len() implies setup.in_bounds(
            (#[trigger] setup.placements[k]).0,
        ) by {
            let laid = setup_view(x_size, y_size, blocks@, Seq::empty(), Seq::empty(), 0);
            assert(laid.in_bounds(laid.placements[k].0));
        }
        let statistics = gather_statistics(victory_conditions);
        if agent_starts.len() > u8::MAX as usize {
            return Err(String::from_str("A board has at most 255 agents"));
        }
        let num_agents: u8 = agent_starts.len() as u8;
        let mut agent: usize = 0;
        while agent < agent_starts.len()
            invariant
                agent <= agent_starts.len(),
                0 <= x_size,
                0 <= y_size,
                agent_starts.len() <= u8::MAX,
                setup == setup_view(
                    x_size,
                    y_size,
                    blocks@,
                    victory_conditions@,
                    agent_starts@,
                    num_agents_must_finish,
                ),
                forall|k: int|
                    0 <= k < setup.placements.len() ==> setup.in_bounds(
                        (#[trigger] setup.placements[k]).0,
                    ),
                level == setup.level(),
                blocks_view(cells@) == level.blocks,
                cells@.len() == x_size * y_size,
                forall|b: int| 0 <= b < agent ==> setup.start_fits(b),
            decreases agent_starts.len() - agent,
        {
            let start = agent_starts[agent];
            if !within(x_size, y_size, start) {
                proof {
                    assert(!setup.start_fits(agent as int));
                    let first = setup.first_misfit();
                    assert(first == agent);
                }
                return Err(String::from_str("Agent start position is out of bounds"));
            }
            let index = place_of(x_size, y_size, start);
            if !cells[index].can_enter(Direction::Stay) {
                proof {
                    assert(!setup.start_fits(agent as int));
                    let first = setup.first_misfit();
                    assert(first == agent);
                }
                return Err(
                    String::from_str("Agent start placed on block that does not support agents"),
                );
            }
            assert(setup.start_fits(agent as int));
            agent += 1;
        }
        let goal_blocks = count_goal_blocks(&cells);
        if goal_blocks > u8::MAX as usize {
            return Err(String::from_str("A board has at most 255 goal blocks"));
        }
        proof {
            lemma_goals_of(statistics@, blocks::blocks_satisfied());
        }
        if goal_blocks > 0 {
            let found = find_stat(&statistics, &String::from_str("BlocksSatisfied"));
            if found.is_none() {
                return Err(
                    String::from_str("Goal blocks need the victory condition BlocksSatisfied"),
                );
            }
        }
        assert(setup.error() is None);
        let mut board = Board {
            board: Vec::new(),
            board_start_configuration: cells,
            x_size,
            y_size,
            num_agents,
            num_agents_alive: num_agents,
            num_agents_must_finish,
            statistics,
            agent_positions: Vec::new(),
            agent_start_positions: agent_starts,
            game_state: GameState::Running,
            action_stack: Vec::new(),
        };
        proof {
            setup.lemma_error_none();
            assert(board.level().blocks =~= level.blocks) by {
                assert forall|i: int| 0 <= i < level.blocks.len() implies (
                #[trigger] level.blocks[i]).vacated() == level.blocks[i] by {
                    lemma_laid_out_vacant(setup, i);
                }
            }
            assert(board.level().goals =~= level.goals);
            assert(board.level() == level);
        }
        board.reset_game();
        Ok(board)
    }

    /// A small board to try things on: the one that `test_setup()`
    /// describes.
    pub fn new_test() -> (board: Board)
        ensures
            board.wf(),
            board.log() == Seq::<PlayerInput>::empty(),
            board.level() == test_setup().level(),
            board@ == test_setup().level().start(),
    {
        let nobody: Vec<AgentID> = Vec::new();
        assert(nobody@.to_set() =~= Set::<AgentID>::empty());
        let mut blocks: Vec<Placement> = Vec::new();
        blocks.push(
            Placement {
                position: Coordinate { x: 4, y: 0 },
                block: Block::BasicBlock(BasicBlock::new(true, &nobody, SlideType::FastSlide, 0)),
            },
        );
        blocks.push(
            Placement {
                position: Coordinate { x: 0, y: 1 },
                block: Block::BasicBlock(BasicBlock::new(true, &nobody, SlideType::FastSlide, 0)),
            },
        );
        blocks.push(
            Placement {
                position: Coordinate { x: 3, y: 1 },
                block: Block::BasicBlock(BasicBlock::new(true, &nobody, SlideType::FastSlide, 0)),
            },
        );
        blocks.push(
            Placement {
                position: Coordinate { x: 2, y: 2 },
                block: Block::BasicBlock(BasicBlock::new(true, &nobody, SlideType::FastSlide, 2)),
            },
        );
        blocks.push(
            Placement {
                position: Coordinate { x: 4, y: 4 },
                block: Block::BasicBlock(BasicBlock::new(true, &nobody, SlideType::FastSlide, 0)),
            },
        );
        let mut victory_conditions: Vec<VictoryCondition> = Vec::new();
        victory_conditions.push(
            VictoryCondition { name: String::from_str("BlocksSatisfied"), goal: GoalType::Exactly(1) },
        );
        let mut agent_starts: Vec<Coordinate> = Vec::new();
        agent_starts.push(Coordinate { x: 4, y: 0 });
        agent_starts.push(Coordinate { x: 4, y: 4 });
        proof {
            let setup = setup_view(5, 5, blocks@, victory_conditions@, agent_starts@, 2);
            assert(setup.placements =~= test_setup().placements);
            assert(setup.conditions =~= test_setup().conditions);
            assert(setup.starts =~= test_setup().starts);
            assert(setup == test_setup());
            lemma_test_setup();
        }
        match Board::new(5, 5, &blocks, &victory_conditions, agent_starts, 2) {
            Ok(board) => board,
            Err(_) => vstd::pervasive::unreached(),
        }
    }
}

} // verus!
