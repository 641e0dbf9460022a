//! The blocks that fill the cells of a board.

use std::collections::HashSet;
use vstd::prelude::*;

use crate::utils_backend::{
    AgentID, DestructionResult, Direction, HitResult, ProgressUpdates, SlideType, StatChange,
    StatusUpdate, TextureType,
};

verus! {

broadcast use vstd::std_specs::hash::group_hash_axioms;

/// The name of the statistic that counts the goal blocks whose occupancy has
/// reached their goal.
pub open spec fn blocks_satisfied() -> Seq<char> {
    "BlocksSatisfied"@
}

/// Every set of agents is finite, since there are finitely many identifiers.
pub proof fn lemma_agents_finite(agents: Set<AgentID>)
    ensures
        agents.finite(),
{
    <AgentID as vstd::set_lib::FiniteFull>::full_properties();
    assert(agents.subset_of(Set::<AgentID>::full()));
    vstd::set_lib::lemma_set_subset_finite(Set::<AgentID>::full(), agents);
}

/// The filler of a board: nothing stands in it and nothing can enter it.
#[derive(Debug, Clone, Copy, PartialEq, Eq, Structural)]
pub struct Air {}

impl Air {
    pub fn new() -> (air: Air)
        ensures
            air == (Air {  }),
    {
        Air {  }
    }

    /// Air gives way to whatever slides into it.
    pub fn on_hit(&mut self, _direction: Direction) -> (result: (HitResult, StatusUpdate))
        ensures
            result.0 == HitResult::NoResistance,
            result.1@ == Seq::<StatChange>::empty(),
            result.1.signals@.len() == 0,
    {
        (HitResult::NoResistance, StatusUpdate::nothing())
    }

    pub fn get_texture(&self) -> (texture: TextureType)
        ensures
            texture == TextureType::Blank,
    {
        TextureType::Blank
    }
}

/// A block that agents can stand on, and that may ask for a number of them.
#[derive(Debug, PartialEq, Eq)]
pub struct BasicBlock {
    passable: bool,
    agents: HashSet<AgentID>,
    default_slide: SlideType,
    num_goal_agents: u8,
}

/// What a `BasicBlock` is, with its occupants as a set.
pub struct BasicBlockView {
    pub passable: bool,
    pub agents: Set<AgentID>,
    pub default_slide: SlideType,
    /// The number of occupants that the block asks for; 0 where it asks for
    /// none.
    pub num_goal_agents: u8,
}

impl BasicBlockView {
    /// Whether the block asks for a number of occupants.
    pub open spec fn is_goal(self) -> bool {
        self.num_goal_agents > 0
    }

    /// The block once `agent` has entered it.
    pub open spec fn entered(self, agent: AgentID) -> BasicBlockView {
        BasicBlockView { agents: self.agents.insert(agent), ..self }
    }

    /// What entering `agent` reports: one more satisfied block where the
    /// occupancy thereby reaches the goal, nothing otherwise.
    pub open spec fn enter_update(self, agent: AgentID) -> Seq<StatChange> {
        if self.is_goal() && self.agents.insert(agent).len() == self.num_goal_agents {
            seq![StatChange::Increase(blocks_satisfied(), 1)]
        } else {
            Seq::empty()
        }
    }

    /// The block once `agent` has left it.
    pub open spec fn removed(self, agent: AgentID) -> BasicBlockView {
        BasicBlockView { agents: self.agents.remove(agent), ..self }
    }

    /// What removing `agent` reports: one satisfied block fewer where the
    /// occupancy stood at the goal and thereby drops below it, nothing
    /// otherwise.
    pub open spec fn remove_update(self, agent: AgentID) -> Seq<StatChange> {
        if self.is_goal() && self.agents.contains(agent) && self.agents.len()
            == self.num_goal_agents {
            seq![StatChange::Decrease(blocks_satisfied(), 1)]
        } else {
            Seq::empty()
        }
    }

    /// The block with the same configuration and no occupants.
    pub open spec fn vacated(self) -> BasicBlockView {
        BasicBlockView { agents: Set::empty(), ..self }
    }

    pub open spec fn texture(self) -> TextureType {
        if self.num_goal_agents > 0 {
            TextureType::Goal(self.num_goal_agents)
        } else if self.passable {
            TextureType::BasicBlock
        } else {
            TextureType::BasicImpassable
        }
    }
}

/// Goal threshold: entering an agent reports one more satisfied block
/// exactly where the block asks for occupants and the agent is the one that
/// was wanting; removing an occupant reports one fewer exactly where the
/// block asks for occupants and just had as many as it asks for. Nothing else
/// is ever reported.
pub proof fn lemma_goal_threshold(block: BasicBlockView, agent: AgentID)
    ensures
        !block.agents.contains(agent) ==> (block.enter_update(agent) == if block.num_goal_agents > 0
            && block.agents.len() + 1 == block.num_goal_agents {
            seq![StatChange::Increase(blocks_satisfied(), 1)]
        } else {
            Seq::<StatChange>::empty()
        }),
        block.agents.contains(agent) ==> block.enter_update(agent) == if block.num_goal_agents > 0
            && block.agents.len() == block.num_goal_agents {
            seq![StatChange::Increase(blocks_satisfied(), 1)]
        } else {
            Seq::<StatChange>::empty()
        },
        block.remove_update(agent) == if block.agents.contains(agent) && block.num_goal_agents > 0
            && block.agents.len() == block.num_goal_agents {
            seq![StatChange::Decrease(blocks_satisfied(), 1)]
        } else {
            Seq::<StatChange>::empty()
        },
        !block.agents.contains(agent) ==> block.entered(agent).remove_update(agent).len()
            == block.enter_update(agent).len(),
{
    lemma_agents_finite(block.agents);
    if block.agents.contains(agent) {
        assert(block.agents.insert(agent) =~= block.agents);
    }
}

impl View for BasicBlock {
    type V = BasicBlockView;

    closed spec fn view(&self) -> BasicBlockView {
        BasicBlockView {
            passable: self.passable,
            agents: self.agents@,
            default_slide: self.default_slide,
            num_goal_agents: self.num_goal_agents,
        }
    }
}

impl Clone for BasicBlock {
    fn clone(&self) -> (copy: BasicBlock)
        ensures
            copy@ == self@,
    {
        BasicBlock {
            passable: self.passable,
            agents: self.get_agents(),
            default_slide: self.default_slide,
            num_goal_agents: self.num_goal_agents,
        }
    }
}

/// The update that raises the count of satisfied blocks by one.
fn one_more_satisfied() -> (update: StatusUpdate)
    ensures
        update@ == seq![StatChange::Increase(blocks_satisfied(), 1)],
        update.signals@.len() == 0,
{
    let mut progress_updates: Vec<ProgressUpdates> = Vec::new();
    progress_updates.push(ProgressUpdates::IncreaseStat(String::from_str("BlocksSatisfied"), 1));
    let update = StatusUpdate { progress_updates, signals: Vec::new() };
    assert(update@ =~= seq![StatChange::Increase(blocks_satisfied(), 1)]);
    update
}

/// The update that lowers the count of satisfied blocks by one.
fn one_less_satisfied() -> (update: StatusUpdate)
    ensures
        update@ == seq![StatChange::Decrease(blocks_satisfied(), 1)],
        update.signals@.len() == 0,
{
    let mut progress_updates: Vec<ProgressUpdates> = Vec::new();
    progress_updates.push(ProgressUpdates::DecreaseStat(String::from_str("BlocksSatisfied"), 1));
    let update = StatusUpdate { progress_updates, signals: Vec::new() };
    assert(update@ =~= seq![StatChange::Decrease(blocks_satisfied(), 1)]);
    update
}

impl BasicBlock {
    /// A block with the given configuration, occupied by `starting_agents`.
    pub fn new(
        passable: bool,
        starting_agents: &Vec<AgentID>,
        default_slide: SlideType,
        num_goal_agents: u8,
    ) -> (block: BasicBlock)
        ensures
            block@ == (BasicBlockView {
                passable,
                agents: starting_agents@.to_set(),
                default_slide,
                num_goal_agents,
            }),
    {
        let mut agents: HashSet<AgentID> = HashSet::new();
        let mut i: usize = 0;
        while i < starting_agents.len()
            invariant
                i <= starting_agents.len(),
                agents@ == starting_agents@.take(i as int).to_set(),
            decreases starting_agents.len() - i,
        {
            agents.insert(starting_agents[i]);
            proof {
                let before = starting_agents@.take(i as int);
                let after = starting_agents@.take(i + 1);
                assert(after =~= before.push(starting_agents@[i as int]));
                assert(after.to_set() =~= before.to_set().insert(starting_agents@[i as int])) by {
                    assert forall|a: AgentID| after.to_set().contains(a) <==> before.to_set().insert(
                        starting_agents@[i as int],
                    ).contains(a) by {
                        if before.contains(a) {
                            let j = choose|j: int| 0 <= j < before.len() && before[j] == a;
                            assert(after[j] == a);
                        }
                        if after.contains(a) {
                            let j = choose|j: int| 0 <= j < after.len() && after[j] == a;
                            if j < i {
                                assert(before[j] == a);
                            }
                        }
                        assert(after[i as int] == starting_agents@[i as int]);
                    }
                }
            }
            i += 1;
        }
        assert(starting_agents@.take(i as int) =~= starting_agents@);
        BasicBlock { passable, agents, default_slide, num_goal_agents }
    }

    /// Whether an agent may step onto the block, from whatever side.
    pub fn can_enter(&self, _direction: Direction) -> (enterable: bool)
        ensures
            enterable == self@.passable,
    {
        self.passable
    }

    /// Registers `agent` as an occupant, which it must not be yet.
    pub fn enter_agent(&mut self, agent: AgentID) -> (update: StatusUpdate)
        requires
            !old(self)@.agents.contains(agent),
        ensures
            final(self)@ == old(self)@.entered(agent),
            update@ == old(self)@.enter_update(agent),
            update.signals@.len() == 0,
    {
        self.agents.insert(agent);
        proof {
            lemma_agents_finite(self.agents@);
        }
        if self.num_goal_agents > 0 && self.agents.len() == self.num_goal_agents as usize {
            one_more_satisfied()
        } else {
            StatusUpdate::nothing()
        }
    }

    /// The occupants, as a set of their own.
    pub fn get_agents(&self) -> (agents: HashSet<AgentID>)
        ensures
            agents@ == self@.agents,
    {
        let mut agents: HashSet<AgentID> = HashSet::new();
        let mut next: u16 = 0;
        while next < 256
            invariant
                next <= 256,
                forall|a: AgentID| agents@.contains(a) <==> a < next && self.agents@.contains(a),
            decreases 256 - next,
        {
            let agent: AgentID = next as AgentID;
            if self.agents.contains(&agent) {
                agents.insert(agent);
            }
            next += 1;
        }
        assert(agents@ =~= self.agents@);
        agents
    }

    /// Whether `agent` is an occupant.
    pub fn has_agent(&self, agent: AgentID) -> (present: bool)
        ensures
            present == self@.agents.contains(agent),
    {
        self.agents.contains(&agent)
    }

    /// The number of occupants.
    pub fn num_agents(&self) -> (count: usize)
        ensures
            count == self@.agents.len(),
    {
        self.agents.len()
    }

    /// Unregisters `agent`; nothing changes where it is no occupant.
    pub fn remove_agent(&mut self, agent: AgentID) -> (update: StatusUpdate)
        ensures
            final(self)@ == old(self)@.removed(agent),
            update@ == old(self)@.remove_update(agent),
            update.signals@.len() == 0,
    {
        proof {
            lemma_agents_finite(self.agents@);
        }
        let was_satisfied = self.num_goal_agents > 0 && self.agents.len()
            == self.num_goal_agents as usize;
        let was_present = self.agents.remove(&agent);
        if was_present && was_satisfied {
            one_less_satisfied()
        } else {
            StatusUpdate::nothing()
        }
    }

    /// A basic block halts whatever slides into it.
    pub fn on_hit(&mut self, _direction: Direction) -> (result: (HitResult, StatusUpdate))
        ensures
            final(self)@ == old(self)@,
            result.0 == HitResult::Stop,
            result.1@ == Seq::<StatChange>::empty(),
            result.1.signals@.len() == 0,
    {
        (HitResult::Stop, StatusUpdate::nothing())
    }

    /// How the block slides once a slide starts on it.
    pub fn start_slide(&mut self, _direction: Direction) -> (result: (SlideType, StatusUpdate))
        ensures
            final(self)@ == old(self)@,
            result.0 == old(self)@.default_slide,
            result.1@ == Seq::<StatChange>::empty(),
            result.1.signals@.len() == 0,
    {
        (self.default_slide, StatusUpdate::nothing())
    }

    /// Whether the block asks for a number of occupants.
    pub fn is_goal(&self) -> (goal: bool)
        ensures
            goal == self@.is_goal(),
    {
        self.num_goal_agents > 0
    }

    /// A block of the same configuration with no occupants.
    pub fn vacant_copy(&self) -> (copy: BasicBlock)
        ensures
            copy@ == self@.vacated(),
    {
        BasicBlock {
            passable: self.passable,
            agents: HashSet::new(),
            default_slide: self.default_slide,
            num_goal_agents: self.num_goal_agents,
        }
    }

    pub fn get_texture(&self) -> (texture: TextureType)
        ensures
            texture == self@.texture(),
    {
        if self.num_goal_agents > 0 {
            return TextureType::Goal(self.num_goal_agents);
        }
        if self.passable {
            TextureType::BasicBlock
        } else {
            TextureType::BasicImpassable
        }
    }
}

/// What stands in one cell of a board.
#[derive(Debug, PartialEq, Eq)]
pub enum Block {
    Air(Air),
    BasicBlock(BasicBlock),
}

/// What a `Block` is, with its occupants as a set.
pub enum BlockView {
    Air,
    BasicBlock(BasicBlockView),
}

impl BlockView {
    /// Whether agents can be registered with the block and a slide can start
    /// on it.
    pub open spec fn supports_agents(self) -> bool {
        self is BasicBlock
    }

    /// The occupants; none for a block that does not support agents.
    pub open spec fn agents(self) -> Set<AgentID> {
        match self {
            BlockView::Air => Set::empty(),
            BlockView::BasicBlock(block) => block.agents,
        }
    }

    pub open spec fn can_enter(self, direction: Direction) -> bool {
        match self {
            BlockView::Air => false,
            BlockView::BasicBlock(block) => block.passable,
        }
    }

    /// The block once `agent` has entered it.
    pub open spec fn entered(self, agent: AgentID) -> BlockView {
        match self {
            BlockView::Air => BlockView::Air,
            BlockView::BasicBlock(block) => BlockView::BasicBlock(block.entered(agent)),
        }
    }

    /// What entering `agent` reports.
    pub open spec fn enter_update(self, agent: AgentID) -> Seq<StatChange> {
        match self {
            BlockView::Air => Seq::empty(),
            BlockView::BasicBlock(block) => block.enter_update(agent),
        }
    }

    /// The block once `agent` has left it.
    pub open spec fn removed(self, agent: AgentID) -> BlockView {
        match self {
            BlockView::Air => BlockView::Air,
            BlockView::BasicBlock(block) => BlockView::BasicBlock(block.removed(agent)),
        }
    }

    /// What removing `agent` reports.
    pub open spec fn remove_update(self, agent: AgentID) -> Seq<StatChange> {
        match self {
            BlockView::Air => Seq::empty(),
            BlockView::BasicBlock(block) => block.remove_update(agent),
        }
    }

    /// What the block answers when something slides into it.
    pub open spec fn hit(self, direction: Direction) -> HitResult {
        match self {
            BlockView::Air => HitResult::NoResistance,
            BlockView::BasicBlock(_) => HitResult::Stop,
        }
    }

    /// How the block slides once a slide starts on it.
    pub open spec fn slide(self, direction: Direction) -> SlideType {
        match self {
            BlockView::Air => SlideType::NoSlide,
            BlockView::BasicBlock(block) => block.default_slide,
        }
    }

    pub open spec fn texture(self) -> TextureType {
        match self {
            BlockView::Air => TextureType::Blank,
            BlockView::BasicBlock(block) => block.texture(),
        }
    }

    /// The block with the same configuration and no occupants.
    pub open spec fn vacated(self) -> BlockView {
        match self {
            BlockView::Air => BlockView::Air,
            BlockView::BasicBlock(block) => BlockView::BasicBlock(block.vacated()),
        }
    }

    /// The block with the same configuration and `agents` as its occupants,
    /// where it supports agents.
    pub open spec fn occupied_by(self, agents: Set<AgentID>) -> BlockView {
        match self {
            BlockView::Air => BlockView::Air,
            BlockView::BasicBlock(block) => BlockView::BasicBlock(
                BasicBlockView { agents, ..block },
            ),
        }
    }

    /// Whether the block asks for a number of occupants.
    pub open spec fn is_goal(self) -> bool {
        self matches BlockView::BasicBlock(block) && block.is_goal()
    }

    /// Whether the block asks for a number of occupants and holds at least
    /// as many.
    pub open spec fn is_counted(self) -> bool {
        self matches BlockView::BasicBlock(block) && block.is_goal() && block.agents.len()
            >= block.num_goal_agents
    }

    /// Whether the block asks for a number of occupants and holds fewer.
    pub open spec fn is_pending(self) -> bool {
        self matches BlockView::BasicBlock(block) && block.is_goal() && block.agents.len()
            < block.num_goal_agents
    }
}

impl View for Block {
    type V = BlockView;

    open spec fn view(&self) -> BlockView {
        match self {
            Block::Air(_) => BlockView::Air,
            Block::BasicBlock(block) => BlockView::BasicBlock(block@),
        }
    }
}

impl Clone for Block {
    fn clone(&self) -> (copy: Block)
        ensures
            copy@ == self@,
    {
        match self {
            Block::Air(_) => Block::Air(Air::new()),
            Block::BasicBlock(block) => Block::BasicBlock(block.clone()),
        }
    }
}

impl Block {
    /// Whether an agent may move into the cell from `direction`. Air lets
    /// nobody in, since it holds nobody.
    pub fn can_enter(&self, direction: Direction) -> (enterable: bool)
        ensures
            enterable == self@.can_enter(direction),
    {
        match self {
            Block::Air(_) => false,
            Block::BasicBlock(block) => block.can_enter(direction),
        }
    }

    /// Whether an agent may leave the cell towards `direction`; no block
    /// says so yet.
    pub fn can_exit(&self, _direction: Direction) -> (exitable: bool)
        ensures
            !exitable,
    {
        false
    }

    /// Registers `agent` as an occupant. The block must support agents and
    /// the agent be no occupant yet.
    pub fn enter_agent(&mut self, agent: AgentID) -> (update: StatusUpdate)
        requires
            old(self)@.supports_agents(),
            !old(self)@.agents().contains(agent),
        ensures
            final(self)@ == old(self)@.entered(agent),
            update@ == old(self)@.enter_update(agent),
            update.signals@.len() == 0,
    {
        match self {
            Block::Air(_) => StatusUpdate::nothing(),
            Block::BasicBlock(block) => block.enter_agent(agent),
        }
    }

    /// Unregisters `agent`; nothing changes where it is no occupant. The
    /// block must support agents.
    pub fn remove_agent(&mut self, agent: AgentID) -> (update: StatusUpdate)
        requires
            old(self)@.supports_agents(),
        ensures
            final(self)@ == old(self)@.removed(agent),
            update@ == old(self)@.remove_update(agent),
            update.signals@.len() == 0,
    {
        match self {
            Block::Air(_) => StatusUpdate::nothing(),
            Block::BasicBlock(block) => block.remove_agent(agent),
        }
    }

    /// The occupants, as a set of their own; empty for a block that does not
    /// support agents.
    pub fn get_agents(&self) -> (agents: HashSet<AgentID>)
        ensures
            agents@ == self@.agents(),
    {
        match self {
            Block::Air(_) => HashSet::new(),
            Block::BasicBlock(block) => block.get_agents(),
        }
    }

    /// Whether `agent` is an occupant.
    pub fn has_agent(&self, agent: AgentID) -> (present: bool)
        ensures
            present == self@.agents().contains(agent),
    {
        match self {
            Block::Air(_) => false,
            Block::BasicBlock(block) => block.has_agent(agent),
        }
    }

    /// The number of occupants.
    pub fn num_agents(&self) -> (count: usize)
        ensures
            count == self@.agents().len(),
    {
        match self {
            Block::Air(_) => 0,
            Block::BasicBlock(block) => block.num_agents(),
        }
    }

    /// Called when something slides into the cell from `direction`.
    pub fn on_hit(&mut self, direction: Direction) -> (result: (HitResult, StatusUpdate))
        ensures
            final(self)@ == old(self)@,
            result.0 == old(self)@.hit(direction),
            result.1@ == Seq::<StatChange>::empty(),
            result.1.signals@.len() == 0,
    {
        match self {
            Block::Air(air) => air.on_hit(direction),
            Block::BasicBlock(block) => block.on_hit(direction),
        }
    }

    /// Called when a block is removed for good; no block does anything then.
    pub fn on_destruction(&self) -> (result: (DestructionResult, StatusUpdate))
        ensures
            result.0 == DestructionResult::Nothing,
            result.1@ == Seq::<StatChange>::empty(),
            result.1.signals@.len() == 0,
    {
        (DestructionResult::Nothing, StatusUpdate::nothing())
    }

    /// Called on the cell that an agent stands on when a slide begins. The
    /// block must support agents.
    pub fn start_slide(&mut self, direction: Direction) -> (result: (SlideType, StatusUpdate))
        requires
            old(self)@.supports_agents(),
        ensures
            final(self)@ == old(self)@,
            result.0 == old(self)@.slide(direction),
            result.1@ == Seq::<StatChange>::empty(),
            result.1.signals@.len() == 0,
    {
        match self {
            Block::Air(_) => (SlideType::NoSlide, StatusUpdate::nothing()),
            Block::BasicBlock(block) => block.start_slide(direction),
        }
    }

    pub fn get_texture(&self) -> (texture: TextureType)
        ensures
            texture == self@.texture(),
    {
        match self {
            Block::Air(air) => air.get_texture(),
            Block::BasicBlock(block) => block.get_texture(),
        }
    }

    /// Whether the block asks for a number of occupants.
    pub fn is_goal(&self) -> (goal: bool)
        ensures
            goal == self@.is_goal(),
    {
        match self {
            Block::Air(_) => false,
            Block::BasicBlock(block) => block.is_goal(),
        }
    }

    /// A block of the same configuration with no occupants.
    pub fn vacant_copy(&self) -> (copy: Block)
        ensures
            copy@ == self@.vacated(),
    {
        match self {
            Block::Air(_) => Block::Air(Air::new()),
            Block::BasicBlock(block) => Block::BasicBlock(block.vacant_copy()),
        }
    }
}

} // verus!
