use std::collections::HashSet;

use sliding_game::backend::blocks::{Air, BasicBlock, Block};
use sliding_game::utils_backend::{
    Coordinate, DestructionResult, Direction, GoalType, HitResult, ProgressUpdates, SlideType,
    StatusUpdate, TextureType,
};

fn one_more() -> Vec<ProgressUpdates> {
    vec![ProgressUpdates::IncreaseStat(String::from("BlocksSatisfied"), 1)]
}

fn one_less() -> Vec<ProgressUpdates> {
    vec![ProgressUpdates::DecreaseStat(String::from("BlocksSatisfied"), 1)]
}

#[test]
fn a_step_leads_to_the_neighbour() {
    let from = Coordinate { x: 3, y: 7 };
    assert_eq!(from.move_direction(Direction::Up), Coordinate { x: 3, y: 6 });
    assert_eq!(from.move_direction(Direction::Down), Coordinate { x: 3, y: 8 });
    assert_eq!(from.move_direction(Direction::Left), Coordinate { x: 2, y: 7 });
    assert_eq!(from.move_direction(Direction::Right), Coordinate { x: 4, y: 7 });
    assert_eq!(from.move_direction(Direction::Stay), from);
    let corner = Coordinate { x: 0, y: 0 };
    assert_eq!(corner.move_direction(Direction::Up), Coordinate { x: 0, y: -1 });
    assert_eq!(corner.move_direction(Direction::Left), Coordinate { x: -1, y: 0 });
    let far = Coordinate { x: 126, y: -127 };
    assert_eq!(far.move_direction(Direction::Right), Coordinate { x: 127, y: -127 });
    assert_eq!(far.move_direction(Direction::Up), Coordinate { x: 126, y: -128 });
    assert_eq!(Coordinate::out_of_bound(), Coordinate { x: -1, y: -1 });
    assert_eq!(
        Coordinate::out_of_bound().move_direction(Direction::Down),
        Coordinate { x: -1, y: 0 }
    );
}

#[test]
fn a_goal_is_met_by_the_values_it_names() {
    assert!(GoalType::AtLeast(2).is_met(2));
    assert!(GoalType::AtLeast(2).is_met(255));
    assert!(!GoalType::AtLeast(2).is_met(1));
    assert!(GoalType::AtMost(2).is_met(2));
    assert!(GoalType::AtMost(2).is_met(0));
    assert!(!GoalType::AtMost(2).is_met(3));
    assert!(GoalType::Exactly(2).is_met(2));
    assert!(!GoalType::Exactly(2).is_met(1));
    assert!(!GoalType::Exactly(2).is_met(3));
}

#[test]
fn the_empty_update_changes_nothing() {
    let StatusUpdate { progress_updates, signals } = StatusUpdate::nothing();
    assert!(progress_updates.is_empty());
    assert!(signals.is_empty());
}

#[test]
fn air_gives_way_and_holds_nobody() {
    let mut air = Air::new();
    let (hit, update) = air.on_hit(Direction::Left);
    assert_eq!(hit, HitResult::NoResistance);
    assert!(update.progress_updates.is_empty());
    assert_eq!(air.get_texture(), TextureType::Blank);
    let mut block = Block::Air(Air::new());
    for direction in [Direction::Up, Direction::Down, Direction::Left, Direction::Right, Direction::Stay] {
        assert!(!block.can_enter(direction));
        assert!(!block.can_exit(direction));
        assert_eq!(block.on_hit(direction).0, HitResult::NoResistance);
    }
    assert!(block.get_agents().is_empty());
    assert!(!block.has_agent(0));
    assert_eq!(block.num_agents(), 0);
    assert!(!block.is_goal());
    assert_eq!(block.get_texture(), TextureType::Blank);
    assert_eq!(block.on_destruction().0, DestructionResult::Nothing);
    assert_eq!(block.vacant_copy(), Block::Air(Air::new()));
}

#[test]
fn a_basic_block_is_what_it_was_made_as() {
    let block = BasicBlock::new(true, &vec![3, 1, 3, 200], SlideType::SlowSlide(4), 0);
    assert_eq!(block.get_agents(), HashSet::from([1, 3, 200]));
    assert_eq!(block.num_agents(), 3);
    assert!(block.has_agent(200));
    assert!(!block.has_agent(2));
    assert!(block.can_enter(Direction::Up));
    assert!(!block.is_goal());
    assert_eq!(block.get_texture(), TextureType::BasicBlock);
    assert_eq!(block.clone(), block);
    let closed = BasicBlock::new(false, &vec![], SlideType::NoSlide, 0);
    assert!(!closed.can_enter(Direction::Stay));
    assert_eq!(closed.get_texture(), TextureType::BasicImpassable);
    let goal = BasicBlock::new(false, &vec![], SlideType::NoSlide, 9);
    assert!(goal.is_goal());
    assert_eq!(goal.get_texture(), TextureType::Goal(9));
    let copy = block.vacant_copy();
    assert!(copy.get_agents().is_empty());
    assert_eq!(copy, BasicBlock::new(true, &vec![], SlideType::SlowSlide(4), 0));
}

#[test]
fn a_basic_block_stops_what_hits_it_and_slides_as_configured() {
    let mut block = Block::BasicBlock(BasicBlock::new(true, &vec![5], SlideType::SlowSlide(4), 2));
    let (hit, update) = block.on_hit(Direction::Right);
    assert_eq!(hit, HitResult::Stop);
    assert!(update.progress_updates.is_empty());
    let (slide, update) = block.start_slide(Direction::Right);
    assert_eq!(slide, SlideType::SlowSlide(4));
    assert!(update.progress_updates.is_empty());
    assert_eq!(block.get_agents(), HashSet::from([5]));
    assert_eq!(block.on_destruction().0, DestructionResult::Nothing);
    assert!(!block.can_exit(Direction::Right));
}

#[test]
fn the_agent_that_was_wanting_satisfies_the_block_once() {
    let mut block = BasicBlock::new(true, &vec![], SlideType::FastSlide, 2);
    assert!(block.enter_agent(0).progress_updates.is_empty());
    assert_eq!(block.enter_agent(1).progress_updates, one_more());
    assert!(block.enter_agent(2).progress_updates.is_empty());
    assert!(block.enter_agent(3).progress_updates.is_empty());
    assert_eq!(block.get_agents(), HashSet::from([0, 1, 2, 3]));
    assert!(block.remove_agent(3).progress_updates.is_empty());
    assert!(block.remove_agent(2).progress_updates.is_empty());
    assert_eq!(block.remove_agent(1).progress_updates, one_less());
    assert!(block.remove_agent(0).progress_updates.is_empty());
    assert!(block.get_agents().is_empty());
    assert!(block.enter_agent(7).signals.is_empty());
    assert_eq!(block.enter_agent(8).progress_updates, one_more());
}

#[test]
fn removing_who_is_not_there_changes_and_reports_nothing() {
    let mut block = BasicBlock::new(true, &vec![4], SlideType::FastSlide, 1);
    assert!(block.remove_agent(5).progress_updates.is_empty());
    assert_eq!(block.get_agents(), HashSet::from([4]));
    let mut empty = BasicBlock::new(true, &vec![], SlideType::FastSlide, 1);
    assert!(empty.remove_agent(5).progress_updates.is_empty());
    assert_eq!(block.remove_agent(4).progress_updates, one_less());
    assert!(block.remove_agent(4).progress_updates.is_empty());
}

#[test]
fn a_block_that_asks_for_nobody_reports_nothing() {
    let mut block = Block::BasicBlock(BasicBlock::new(true, &vec![], SlideType::FastSlide, 0));
    assert!(block.enter_agent(0).progress_updates.is_empty());
    assert!(block.has_agent(0));
    assert!(block.remove_agent(0).progress_updates.is_empty());
    assert!(!block.has_agent(0));
    let mut goal = Block::BasicBlock(BasicBlock::new(true, &vec![], SlideType::FastSlide, 1));
    assert_eq!(goal.enter_agent(3).progress_updates, one_more());
    assert_eq!(goal.remove_agent(3).progress_updates, one_less());
}
