use std::collections::HashSet;

use sliding_game::backend::blocks::{BasicBlock, Block};
use sliding_game::backend::{Board, GameState, Placement, VictoryCondition};
use sliding_game::utils_backend::{
    AgentID, Coordinate, Direction, GoalType, SlideType, TextureType,
};

fn at(x: i8, y: i8) -> Coordinate {
    Coordinate { x, y }
}

fn basic(x: i8, y: i8, passable: bool, slide: SlideType, goal: u8) -> Placement {
    Placement {
        position: at(x, y),
        block: Block::BasicBlock(BasicBlock::new(passable, &vec![], slide, goal)),
    }
}

fn satisfied_exactly(count: u8) -> Vec<VictoryCondition> {
    vec![VictoryCondition { name: String::from("BlocksSatisfied"), goal: GoalType::Exactly(count) }]
}

/// Everything that can be seen of a board from outside.
fn snapshot(board: &Board) -> (Vec<(TextureType, Vec<AgentID>)>, Vec<Coordinate>, Option<u8>, u8, GameState) {
    let (x_size, y_size) = board.get_dimensions();
    let mut cells = vec![];
    for x in 0..x_size {
        for y in 0..y_size {
            let block = board.read_block(at(x, y));
            let mut agents: Vec<AgentID> = block.get_agents().into_iter().collect();
            agents.sort();
            cells.push((block.get_texture(), agents));
        }
    }
    let positions = (0..board.get_num_agents()).map(|a| board.get_agent_position(a)).collect();
    (
        cells,
        positions,
        board.get_progress("BlocksSatisfied"),
        board.get_num_agents_alive(),
        board.get_game_state(),
    )
}

/// Checks that the table of positions and the occupants of the cells agree.
fn assert_positions_agree(board: &Board) {
    let (x_size, y_size) = board.get_dimensions();
    let mut seen: HashSet<AgentID> = HashSet::new();
    for x in 0..x_size {
        for y in 0..y_size {
            for agent in board.read_block(at(x, y)).get_agents() {
                assert!(agent < board.get_num_agents());
                assert_eq!(board.get_agent_position(agent), at(x, y));
                assert!(seen.insert(agent), "agent {} stands in two cells", agent);
            }
        }
    }
    let mut alive = 0;
    for agent in 0..board.get_num_agents() {
        let position = board.get_agent_position(agent);
        if position == Coordinate::out_of_bound() {
            assert!(!seen.contains(&agent));
        } else {
            assert!(seen.contains(&agent));
            alive += 1;
        }
    }
    assert_eq!(board.get_num_agents_alive(), alive);
}

/// Brings both agents of the test board into the goal block at (2, 2).
fn solve(board: &mut Board) {
    board.slide_agent(1, Direction::Up);
    board.move_agent(1, Direction::Left);
    board.slide_agent(1, Direction::Left);
    board.move_agent(1, Direction::Left);
    board.move_agent(0, Direction::Down);
    board.slide_agent(0, Direction::Left);
    board.move_agent(0, Direction::Down);
    board.move_agent(1, Direction::Right);
    board.move_agent(1, Direction::Right);
    board.move_agent(1, Direction::Down);
}

#[test]
fn test_board_starts_as_described() {
    let board = Board::new_test();
    assert_eq!(board.get_dimensions(), (5, 5));
    assert_eq!(board.get_num_agents(), 2);
    assert_eq!(board.get_num_agents_alive(), 2);
    assert_eq!(board.get_agent_position(0), at(4, 0));
    assert_eq!(board.get_agent_position(1), at(4, 4));
    assert_eq!(board.get_game_state(), GameState::Running);
    assert_eq!(board.get_progress("BlocksSatisfied"), Some(0));
    assert_eq!(board.get_progress("Other"), None);
    assert_eq!(board.get_num_actions(), 0);
    assert_eq!(board.read_block(at(2, 2)).get_texture(), TextureType::Goal(2));
    assert_eq!(board.read_block(at(0, 1)).get_texture(), TextureType::BasicBlock);
    assert_eq!(board.read_block(at(0, 0)).get_texture(), TextureType::Blank);
    assert_eq!(board.read_block(at(4, 0)).get_agents(), HashSet::from([0]));
    assert_eq!(board.read_block(at(4, 4)).get_agents(), HashSet::from([1]));
    assert_positions_agree(&board);
}

#[test]
fn every_coordinate_in_range_has_a_block() {
    let mut board = Board::new_test();
    solve(&mut board);
    let (x_size, y_size) = board.get_dimensions();
    let mut count = 0;
    for x in 0..x_size {
        for y in 0..y_size {
            let _ = board.read_block(at(x, y)).get_texture();
            count += 1;
        }
    }
    assert_eq!(count, 25);
}

#[test]
fn positions_and_occupants_agree_after_every_action() {
    let mut board = Board::new_test();
    assert_positions_agree(&board);
    board.slide_agent(1, Direction::Up);
    assert_positions_agree(&board);
    assert_eq!(board.get_agent_position(1), at(4, 1));
    board.move_agent(1, Direction::Left);
    assert_positions_agree(&board);
    assert_eq!(board.get_agent_position(1), at(3, 1));
    board.slide_agent(1, Direction::Left);
    assert_positions_agree(&board);
    assert_eq!(board.get_agent_position(1), at(1, 1));
    board.slide_agent(1, Direction::Down);
    assert_positions_agree(&board);
    assert_eq!(board.get_agent_position(1), Coordinate::out_of_bound());
}

#[test]
fn can_move_agent_changes_nothing_and_repeats_its_answer() {
    let board = Board::new_test();
    let before = snapshot(&board);
    for agent in 0..2 {
        for direction in
            [Direction::Up, Direction::Down, Direction::Left, Direction::Right, Direction::Stay]
        {
            let first = board.can_move_agent(agent, direction);
            let second = board.can_move_agent(agent, direction);
            assert_eq!(first, second);
        }
    }
    assert_eq!(snapshot(&board), before);
    assert_eq!(board.get_num_actions(), 0);
    // Air lets nobody in, the edge neither; staying enters the agent's own block.
    assert!(!board.can_move_agent(0, Direction::Down));
    assert!(!board.can_move_agent(0, Direction::Up));
    assert!(!board.can_move_agent(0, Direction::Right));
    assert!(board.can_move_agent(0, Direction::Stay));
}

#[test]
fn a_move_that_cannot_be_made_is_logged_and_changes_nothing_else() {
    let mut board = Board::new_test();
    let before = snapshot(&board);
    board.move_agent(0, Direction::Up);
    board.move_agent(0, Direction::Down);
    assert_eq!(snapshot(&board), before);
    assert_eq!(board.get_num_actions(), 2);
}

#[test]
fn a_move_onto_a_neighbouring_block_takes_the_agent_there() {
    let mut board = Board::new_test();
    board.slide_agent(1, Direction::Up);
    assert!(board.can_move_agent(1, Direction::Left));
    board.move_agent(1, Direction::Left);
    assert_eq!(board.get_agent_position(1), at(3, 1));
    assert_eq!(board.read_block(at(3, 1)).get_agents(), HashSet::from([1]));
    assert!(board.read_block(at(4, 1)).get_agents().is_empty());
    assert_eq!(board.read_block(at(4, 1)).get_texture(), TextureType::BasicBlock);
}

#[test]
fn a_slide_carries_the_block_until_something_stops_it() {
    let mut board = Board::new_test();
    board.slide_agent(0, Direction::Down);
    assert_eq!(board.get_agent_position(0), at(4, 3));
    assert_eq!(board.read_block(at(4, 0)).get_texture(), TextureType::Blank);
    assert_eq!(board.read_block(at(4, 3)).get_texture(), TextureType::BasicBlock);
    assert_eq!(board.read_block(at(4, 3)).get_agents(), HashSet::from([0]));
    assert_eq!(board.get_game_state(), GameState::Running);
    // The next cell holds a block, so nothing moves.
    board.slide_agent(0, Direction::Down);
    assert_eq!(board.get_agent_position(0), at(4, 3));
    // Sliding nowhere hits the agent's own block.
    board.slide_agent(0, Direction::Stay);
    assert_eq!(board.get_agent_position(0), at(4, 3));
    assert_eq!(board.get_num_actions(), 3);
}

#[test]
fn sliding_off_the_edge_loses_the_game() {
    let mut board = Board::new_test();
    board.slide_agent(0, Direction::Left);
    assert_eq!(board.get_game_state(), GameState::Lost);
    assert_eq!(board.get_num_agents_alive(), 1);
    assert_eq!(board.get_agent_position(0), Coordinate::out_of_bound());
    assert_eq!(board.get_agent_position(1), at(4, 4));
    for x in 0..5 {
        assert_eq!(board.read_block(at(x, 0)).get_texture(), TextureType::Blank);
    }
    assert_positions_agree(&board);
    board.undo();
    assert_eq!(board.get_game_state(), GameState::Running);
    assert_eq!(board.get_num_agents_alive(), 2);
    assert_eq!(board.get_agent_position(0), at(4, 0));
}

#[test]
fn an_ejection_that_leaves_enough_agents_keeps_the_game_running() {
    let blocks = vec![basic(0, 0, true, SlideType::FastSlide, 0), basic(1, 1, true, SlideType::FastSlide, 0)];
    let mut board =
        Board::new(2, 2, &blocks, &satisfied_exactly(1), vec![at(0, 0), at(1, 1)], 1).ok().unwrap();
    board.slide_agent(0, Direction::Up);
    assert_eq!(board.get_game_state(), GameState::Running);
    assert_eq!(board.get_num_agents_alive(), 1);
    // A move of the ejected agent is logged and changes nothing.
    let before = snapshot(&board);
    board.move_agent(0, Direction::Right);
    assert_eq!(snapshot(&board), before);
    board.slide_agent(1, Direction::Down);
    assert_eq!(board.get_game_state(), GameState::Lost);
    assert_eq!(board.get_num_agents_alive(), 0);
}

#[test]
fn both_agents_in_the_goal_block_win_and_undo_takes_it_back() {
    let mut board = Board::new_test();
    solve(&mut board);
    assert_eq!(board.get_agent_position(0), at(2, 2));
    assert_eq!(board.get_agent_position(1), at(2, 2));
    assert_eq!(board.read_block(at(2, 2)).get_agents(), HashSet::from([0, 1]));
    assert_eq!(board.get_progress("BlocksSatisfied"), Some(1));
    assert_eq!(board.get_game_state(), GameState::Won);
    assert_positions_agree(&board);
    board.undo();
    assert_eq!(board.get_progress("BlocksSatisfied"), Some(0));
    assert_eq!(board.get_game_state(), GameState::Running);
    assert_eq!(board.get_agent_position(0), at(2, 2));
    assert_eq!(board.get_agent_position(1), at(2, 1));
    assert_eq!(board.get_num_actions(), 9);
    assert_positions_agree(&board);
}

#[test]
fn undoing_every_action_gives_the_start_again() {
    let start = snapshot(&Board::new_test());
    let mut board = Board::new_test();
    solve(&mut board);
    assert_ne!(snapshot(&board), start);
    let mut actions = board.get_num_actions();
    assert_eq!(actions, 10);
    while actions > 0 {
        board.undo();
        actions -= 1;
        assert_eq!(board.get_num_actions(), actions);
        assert_positions_agree(&board);
    }
    assert_eq!(snapshot(&board), start);
    // Nothing is left to undo.
    board.undo();
    assert_eq!(snapshot(&board), start);
    assert_eq!(board.get_num_actions(), 0);
}

#[test]
fn undo_replays_what_came_before() {
    let mut expected = Board::new_test();
    expected.slide_agent(1, Direction::Up);
    expected.move_agent(1, Direction::Left);
    let mut board = Board::new_test();
    board.slide_agent(1, Direction::Up);
    board.move_agent(1, Direction::Left);
    board.slide_agent(1, Direction::Down);
    assert_eq!(board.get_game_state(), GameState::Lost);
    board.undo();
    assert_eq!(snapshot(&board), snapshot(&expected));
    assert_eq!(board.get_num_actions(), 2);
}

#[test]
fn a_slide_of_a_hundred_steps_is_carried_out() {
    let blocks = vec![basic(0, 0, true, SlideType::FastSlide, 0), basic(100, 0, true, SlideType::FastSlide, 0)];
    let mut board = Board::new(101, 1, &blocks, &satisfied_exactly(1), vec![at(0, 0)], 1).ok().unwrap();
    board.slide_agent(0, Direction::Right);
    assert_eq!(board.get_agent_position(0), at(99, 0));
    assert_eq!(board.get_game_state(), GameState::Running);
}

#[test]
fn a_slide_is_cut_short_after_the_most_steps_and_loses_the_game() {
    let blocks = vec![basic(0, 0, true, SlideType::FastSlide, 0)];
    let mut board = Board::new(120, 1, &blocks, &satisfied_exactly(1), vec![at(0, 0)], 1).ok().unwrap();
    board.slide_agent(0, Direction::Right);
    assert_eq!(board.get_game_state(), GameState::Lost);
    assert_eq!(board.get_agent_position(0), at(101, 0));
    assert_eq!(board.get_num_agents_alive(), 1);
    assert_eq!(board.read_block(at(101, 0)).get_agents(), HashSet::from([0]));
    assert_eq!(board.read_block(at(102, 0)).get_texture(), TextureType::Blank);
    assert_positions_agree(&board);
    board.undo();
    assert_eq!(board.get_game_state(), GameState::Running);
    assert_eq!(board.get_agent_position(0), at(0, 0));
}

#[test]
fn a_block_that_does_not_slide_stays() {
    let blocks = vec![basic(0, 0, true, SlideType::NoSlide, 0)];
    let mut board = Board::new(3, 1, &blocks, &satisfied_exactly(0), vec![at(0, 0)], 1).ok().unwrap();
    board.slide_agent(0, Direction::Right);
    assert_eq!(board.get_agent_position(0), at(0, 0));
    // The victory conditions have not been looked at.
    assert_eq!(board.get_game_state(), GameState::Running);
    board.move_agent(0, Direction::Right);
    assert_eq!(board.get_game_state(), GameState::Won);
}

#[test]
fn a_stepped_slide_is_resolved_like_a_fast_one() {
    let blocks = vec![basic(0, 0, true, SlideType::SlowSlide(1), 0), basic(3, 0, false, SlideType::NoSlide, 0)];
    let mut board = Board::new(4, 1, &blocks, &satisfied_exactly(1), vec![at(0, 0)], 1).ok().unwrap();
    board.slide_agent(0, Direction::Right);
    assert_eq!(board.get_agent_position(0), at(2, 0));
    assert_eq!(board.read_block(at(3, 0)).get_texture(), TextureType::BasicImpassable);
    assert!(!board.can_move_agent(0, Direction::Right));
}

#[test]
fn agents_that_start_in_a_goal_block_are_counted() {
    let blocks = vec![basic(0, 0, true, SlideType::FastSlide, 2), basic(1, 0, true, SlideType::FastSlide, 1)];
    let conditions = vec![
        VictoryCondition { name: String::from("BlocksSatisfied"), goal: GoalType::AtLeast(2) },
        VictoryCondition { name: String::from("Unused"), goal: GoalType::AtMost(0) },
    ];
    let mut board = Board::new(2, 1, &blocks, &conditions, vec![at(0, 0), at(0, 0)], 0).ok().unwrap();
    assert_eq!(board.get_progress("BlocksSatisfied"), Some(1));
    assert_eq!(board.get_progress("Unused"), Some(0));
    assert_eq!(board.get_game_state(), GameState::Running);
    board.move_agent(1, Direction::Right);
    // One block has lost its second agent, the other has got its first.
    assert_eq!(board.get_progress("BlocksSatisfied"), Some(1));
    assert_eq!(board.get_game_state(), GameState::Running);
    board.move_agent(1, Direction::Left);
    assert_eq!(board.get_progress("BlocksSatisfied"), Some(1));
    board.move_agent(1, Direction::Stay);
    assert_eq!(board.get_progress("BlocksSatisfied"), Some(1));
    board.undo();
    board.undo();
    board.undo();
    assert_eq!(board.get_progress("BlocksSatisfied"), Some(1));
    assert_eq!(board.get_num_actions(), 0);
}

#[test]
fn an_ejected_goal_block_stays_counted() {
    let blocks = vec![basic(0, 0, true, SlideType::FastSlide, 1)];
    let mut board = Board::new(1, 1, &blocks, &satisfied_exactly(1), vec![at(0, 0)], 0).ok().unwrap();
    assert_eq!(board.get_progress("BlocksSatisfied"), Some(1));
    board.slide_agent(0, Direction::Up);
    assert_eq!(board.get_progress("BlocksSatisfied"), Some(1));
    assert_eq!(board.get_num_agents_alive(), 0);
    assert_eq!(board.get_game_state(), GameState::Won);
}

#[test]
fn a_later_block_replaces_an_earlier_one_in_the_same_cell() {
    let blocks = vec![basic(0, 0, false, SlideType::NoSlide, 0), basic(0, 0, true, SlideType::FastSlide, 3)];
    let board = Board::new(1, 1, &blocks, &satisfied_exactly(1), vec![], 0).ok().unwrap();
    assert_eq!(board.read_block(at(0, 0)).get_texture(), TextureType::Goal(3));
}

#[test]
fn occupants_of_the_blocks_handed_over_are_left_out() {
    let blocks = vec![Placement {
        position: at(0, 0),
        block: Block::BasicBlock(BasicBlock::new(true, &vec![7, 9], SlideType::FastSlide, 0)),
    }];
    let board = Board::new(1, 1, &blocks, &vec![], vec![at(0, 0)], 1).ok().unwrap();
    assert_eq!(board.read_block(at(0, 0)).get_agents(), HashSet::from([0]));
    assert_positions_agree(&board);
}

#[test]
fn of_two_conditions_with_one_name_the_later_counts() {
    let conditions = vec![
        VictoryCondition { name: String::from("BlocksSatisfied"), goal: GoalType::Exactly(5) },
        VictoryCondition { name: String::from("BlocksSatisfied"), goal: GoalType::Exactly(0) },
    ];
    let blocks = vec![basic(0, 0, true, SlideType::FastSlide, 0)];
    let mut board = Board::new(1, 1, &blocks, &conditions, vec![at(0, 0)], 1).ok().unwrap();
    board.move_agent(0, Direction::Up);
    assert_eq!(board.get_game_state(), GameState::Won);
}

fn error_of(result: Result<Board, String>) -> String {
    match result {
        Ok(_) => panic!("a board was built"),
        Err(message) => message,
    }
}

#[test]
fn a_board_is_not_built_from_what_does_not_fit() {
    let open = || vec![basic(0, 0, true, SlideType::FastSlide, 0)];
    assert_eq!(
        error_of(Board::new(-1, 1, &vec![], &vec![], vec![], 0)),
        "Board dimensions must not be negative"
    );
    assert_eq!(
        error_of(Board::new(1, -1, &vec![], &vec![], vec![], 0)),
        "Board dimensions must not be negative"
    );
    assert_eq!(
        error_of(Board::new(1, 1, &vec![basic(1, 0, true, SlideType::FastSlide, 0)], &vec![], vec![], 0)),
        "Block out of bounds"
    );
    assert_eq!(
        error_of(Board::new(1, 1, &vec![basic(0, -1, true, SlideType::FastSlide, 0)], &vec![], vec![], 0)),
        "Block out of bounds"
    );
    assert_eq!(
        error_of(Board::new(1, 1, &open(), &vec![], vec![at(0, 0); 256], 0)),
        "A board has at most 255 agents"
    );
    assert_eq!(
        error_of(Board::new(1, 1, &open(), &vec![], vec![at(0, 0), at(0, 1)], 0)),
        "Agent start position is out of bounds"
    );
    assert_eq!(
        error_of(Board::new(2, 1, &open(), &vec![], vec![at(0, 0), at(1, 0), at(5, 5)], 0)),
        "Agent start placed on block that does not support agents"
    );
    assert_eq!(
        error_of(Board::new(
            1,
            1,
            &vec![basic(0, 0, false, SlideType::FastSlide, 0)],
            &vec![],
            vec![at(0, 0)],
            0
        )),
        "Agent start placed on block that does not support agents"
    );
    assert_eq!(
        error_of(Board::new(1, 1, &vec![basic(0, 0, true, SlideType::FastSlide, 1)], &vec![], vec![], 0)),
        "Goal blocks need the victory condition BlocksSatisfied"
    );
    let mut many = vec![];
    for x in 0..16 {
        for y in 0..16 {
            many.push(basic(x, y, true, SlideType::FastSlide, 1));
        }
    }
    assert_eq!(
        error_of(Board::new(16, 16, &many, &satisfied_exactly(1), vec![], 0)),
        "A board has at most 255 goal blocks"
    );
    many.pop();
    assert!(Board::new(16, 16, &many, &satisfied_exactly(1), vec![], 0).is_ok());
    assert!(Board::new(1, 1, &open(), &vec![], vec![at(0, 0); 255], 0).is_ok());
    assert!(Board::new(0, 0, &vec![], &vec![], vec![], 0).is_ok());
}

#[test]
fn cells_are_found_by_column_and_row() {
    let blocks = vec![
        basic(2, 0, true, SlideType::FastSlide, 0),
        basic(0, 1, false, SlideType::FastSlide, 0),
        basic(1, 1, true, SlideType::FastSlide, 4),
    ];
    let mut board = Board::new(3, 2, &blocks, &satisfied_exactly(1), vec![at(2, 0)], 1).ok().unwrap();
    assert_eq!(board.get_dimensions(), (3, 2));
    let textures: Vec<TextureType> = [(0, 0), (1, 0), (2, 0), (0, 1), (1, 1), (2, 1)]
        .iter()
        .map(|&(x, y)| board.read_block(at(x, y)).get_texture())
        .collect();
    assert_eq!(
        textures,
        vec![
            TextureType::Blank,
            TextureType::Blank,
            TextureType::BasicBlock,
            TextureType::BasicImpassable,
            TextureType::Goal(4),
            TextureType::Blank,
        ]
    );
    assert_eq!(board.read_block(at(2, 0)).get_agents(), HashSet::from([0]));
    // Down the column the block leaves the board; along the row it does too.
    board.slide_agent(0, Direction::Left);
    assert_eq!(board.get_agent_position(0), Coordinate::out_of_bound());
    board.undo();
    board.slide_agent(0, Direction::Down);
    assert_eq!(board.get_agent_position(0), Coordinate::out_of_bound());
    assert_eq!(board.read_block(at(2, 1)).get_texture(), TextureType::Blank);
    board.undo();
    assert_eq!(board.get_agent_position(0), at(2, 0));
}

#[test]
fn a_sliding_block_stops_before_another_in_a_wide_grid() {
    let blocks = vec![basic(0, 1, true, SlideType::FastSlide, 0), basic(3, 1, false, SlideType::FastSlide, 0)];
    let mut board = Board::new(4, 3, &blocks, &satisfied_exactly(1), vec![at(0, 1)], 1).ok().unwrap();
    board.slide_agent(0, Direction::Right);
    assert_eq!(board.get_agent_position(0), at(2, 1));
    assert_eq!(board.read_block(at(2, 1)).get_agents(), HashSet::from([0]));
    assert_eq!(board.read_block(at(0, 1)).get_texture(), TextureType::Blank);
    assert_eq!(board.read_block(at(1, 2)).get_texture(), TextureType::Blank);
    assert!(!board.can_move_agent(0, Direction::Right));
    assert_positions_agree(&board);
}
