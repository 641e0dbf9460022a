//! Coordinates, directions and the small result types that blocks and the
//! board exchange.

use vstd::prelude::*;

verus! {

/// A grid index along one axis.
pub type Index = i8;

/// An agent's identifier; the agents of a board are numbered from zero.
pub type AgentID = u8;

/// A position on the grid, or off it.
#[derive(Clone, Copy, Debug, PartialEq, Eq, Structural)]
pub struct Coordinate {
    pub x: Index,
    pub y: Index,
}

#[derive(Clone, Copy, Debug, PartialEq, Eq, Structural)]
pub enum Direction {
    Up,
    Down,
    Left,
    Right,
    /// No direction: a step this way stays in place.
    Stay,
}

impl Direction {
    /// The change in `x` of one step in this direction.
    pub open spec fn dx(self) -> int {
        match self {
            Direction::Left => -1,
            Direction::Right => 1,
            _ => 0,
        }
    }

    /// The change in `y` of one step in this direction.
    pub open spec fn dy(self) -> int {
        match self {
            Direction::Up => -1,
            Direction::Down => 1,
            _ => 0,
        }
    }
}

impl Coordinate {
    /// The sentinel for "not on the board": where an agent is once it has
    /// been ejected.
    pub open spec fn off_board() -> Coordinate {
        Coordinate { x: -1i8, y: -1i8 }
    }

    /// The sentinel for "not on the board".
    #[verifier::when_used_as_spec(off_board)]
    pub fn out_of_bound() -> (c: Coordinate)
        ensures
            c == Coordinate::off_board(),
    {
        Coordinate { x: -1, y: -1 }
    }

    /// Whether one step in `direction` stays within the range of `Index`.
    pub open spec fn can_step(self, direction: Direction) -> bool {
        &&& Index::MIN <= self.x + direction.dx() <= Index::MAX
        &&& Index::MIN <= self.y + direction.dy() <= Index::MAX
    }

    /// The coordinate one step away in `direction`.
    pub open spec fn neighbour(self, direction: Direction) -> Coordinate {
        Coordinate { x: (self.x + direction.dx()) as Index, y: (self.y + direction.dy()) as Index }
    }

    /// The neighbour of `self` in `direction`; `Direction::Stay` gives `self`.
    pub fn move_direction(&self, direction: Direction) -> (target: Coordinate)
        requires
            self.can_step(direction),
        ensures
            target == self.neighbour(direction),
            target.x == self.x + direction.dx(),
            target.y == self.y + direction.dy(),
    {
        match direction {
            Direction::Up => Coordinate { x: self.x, y: self.y - 1 },
            Direction::Down => Coordinate { x: self.x, y: self.y + 1 },
            Direction::Left => Coordinate { x: self.x - 1, y: self.y },
            Direction::Right => Coordinate { x: self.x + 1, y: self.y },
            Direction::Stay => *self,
        }
    }
}

/// How a cell slides once a slide has started on it.
#[derive(Clone, Copy, Debug, PartialEq, Eq, Structural)]
pub enum SlideType {
    NoSlide,
    /// Slides until something stops it.
    FastSlide,
    /// Reserved for stepped sliding; resolved like `FastSlide`.
    SlowSlide(u8),
}

/// What a cell answers when something slides into it.
#[derive(Clone, Copy, Debug, PartialEq, Eq, Structural)]
pub enum HitResult {
    /// The sliding cell halts before this one.
    Stop,
    /// The sliding cell takes this cell's place.
    NoResistance,
    /// The sliding cell is sent to the given coordinate.
    MoveTo(Coordinate),
}

/// How a statistic is compared with its threshold.
#[derive(Clone, Copy, Debug, PartialEq, Eq, Structural)]
pub enum GoalType {
    AtLeast(u8),
    AtMost(u8),
    Exactly(u8),
}

impl GoalType {
    /// Whether a statistic that stands at `current` meets this goal.
    pub open spec fn met_by(self, current: u8) -> bool {
        match self {
            GoalType::AtLeast(threshold) => current >= threshold,
            GoalType::AtMost(threshold) => current <= threshold,
            GoalType::Exactly(threshold) => current == threshold,
        }
    }

    /// Whether a statistic that stands at `current` meets this goal.
    pub fn is_met(&self, current: u8) -> (met: bool)
        ensures
            met == self.met_by(current),
    {
        match self {
            GoalType::AtLeast(threshold) => current >= *threshold,
            GoalType::AtMost(threshold) => current <= *threshold,
            GoalType::Exactly(threshold) => current == *threshold,
        }
    }
}

/// A change to one named statistic.
#[derive(Debug, PartialEq, Eq)]
pub enum ProgressUpdates {
    IncreaseStat(String, u8),
    DecreaseStat(String, u8),
    SetStat(String, u8),
}

impl Clone for ProgressUpdates {
    fn clone(&self) -> (copy: ProgressUpdates)
        ensures
            copy@ == self@,
    {
        match self {
            ProgressUpdates::IncreaseStat(name, amount) => ProgressUpdates::IncreaseStat(
                name.clone(),
                *amount,
            ),
            ProgressUpdates::DecreaseStat(name, amount) => ProgressUpdates::DecreaseStat(
                name.clone(),
                *amount,
            ),
            ProgressUpdates::SetStat(name, to) => ProgressUpdates::SetStat(name.clone(), *to),
        }
    }
}

/// A `ProgressUpdates` with the statistic's name as a sequence of characters.
pub enum StatChange {
    Increase(Seq<char>, u8),
    Decrease(Seq<char>, u8),
    Assign(Seq<char>, u8),
}

impl StatChange {
    /// The statistic that the change is addressed to.
    pub open spec fn name(self) -> Seq<char> {
        match self {
            StatChange::Increase(name, _) => name,
            StatChange::Decrease(name, _) => name,
            StatChange::Assign(name, _) => name,
        }
    }

    /// Whether the change can be made to a counter that stands at `value`
    /// without leaving the range of `u8`.
    pub open spec fn fits(self, value: u8) -> bool {
        match self {
            StatChange::Increase(_, amount) => value + amount <= u8::MAX,
            StatChange::Decrease(_, amount) => value >= amount,
            StatChange::Assign(_, _) => true,
        }
    }

    /// The counter after the change, where it `fits`.
    pub open spec fn apply(self, value: u8) -> u8 {
        match self {
            StatChange::Increase(_, amount) => (value + amount) as u8,
            StatChange::Decrease(_, amount) => (value - amount) as u8,
            StatChange::Assign(_, to) => to,
        }
    }
}

impl View for ProgressUpdates {
    type V = StatChange;

    open spec fn view(&self) -> StatChange {
        match self {
            ProgressUpdates::IncreaseStat(name, amount) => StatChange::Increase(name@, *amount),
            ProgressUpdates::DecreaseStat(name, amount) => StatChange::Decrease(name@, *amount),
            ProgressUpdates::SetStat(name, to) => StatChange::Assign(name@, *to),
        }
    }
}

/// A signal from a block to the game. The board acts on none; `Silence`
/// says that there is nothing to signal.
#[derive(Clone, Copy, Debug, PartialEq, Eq, Structural)]
pub enum GameSignal {
    Silence,
}

/// What a block reports back when its state changes.
pub struct StatusUpdate {
    pub progress_updates: Vec<ProgressUpdates>,
    pub signals: Vec<GameSignal>,
}

impl View for StatusUpdate {
    type V = Seq<StatChange>;

    /// The changes to statistics, in order.
    open spec fn view(&self) -> Seq<StatChange> {
        self.progress_updates@.map_values(|update: ProgressUpdates| update@)
    }
}

impl StatusUpdate {
    /// The update that changes nothing.
    pub fn nothing() -> (update: StatusUpdate)
        ensures
            update@ == Seq::<StatChange>::empty(),
            update.signals@.len() == 0,
    {
        StatusUpdate { progress_updates: Vec::new(), signals: Vec::new() }
    }
}

/// What happens when a block is removed for good.
#[derive(Clone, Copy, Debug, PartialEq, Eq, Structural)]
pub enum DestructionResult {
    Nothing,
}

/// A hint for whoever draws a cell.
#[derive(Clone, Copy, Debug, PartialEq, Eq, Structural)]
pub enum TextureType {
    Blank,
    BasicBlock,
    BasicImpassable,
    Goal(u8),
}

/// One action of the player, as the action log keeps it.
#[derive(Clone, Copy, Debug, PartialEq, Eq, Structural)]
pub enum PlayerInput {
    Move(AgentID, Direction),
    Slide(AgentID, Direction),
}

impl PlayerInput {
    /// The agent that the action is about.
    pub open spec fn agent(self) -> AgentID {
        match self {
            PlayerInput::Move(agent, _) => agent,
            PlayerInput::Slide(agent, _) => agent,
        }
    }
}

} // verus!
