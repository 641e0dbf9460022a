use sliding_game::backend::blocks::{Air, BasicBlock, Block};
use sliding_game::backend::{Board, GameState, Placement, VictoryCondition};
use sliding_game::frontend::frontend_utils::FrontendState;
use sliding_game::frontend::main_menu::{
    button_colour_update, menu_action, ButtonColour, ButtonInteraction, MenuButtonAction,
    MenuChange, MenuState,
};
use sliding_game::frontend::play_level::{
    char_to_direction, draw_board, draw_cell, level_path, read_command, settle, take_turn, Command,
};
use sliding_game::utils_backend::{Coordinate, Direction, GoalType, SlideType};

fn typed(input: &str) -> String {
    String::from(input)
}

#[test]
fn a_direction_is_named_by_its_first_letter() {
    assert_eq!(char_to_direction(&typed("u")), Ok(Direction::Up));
    assert_eq!(char_to_direction(&typed("d")), Ok(Direction::Down));
    assert_eq!(char_to_direction(&typed("l")), Ok(Direction::Left));
    assert_eq!(char_to_direction(&typed("r")), Ok(Direction::Right));
    for other in ["", "up", "U", "x", "u d", "n"] {
        assert_eq!(char_to_direction(&typed(other)), Err(typed("Not a direction")), "for {:?}", other);
    }
}

#[test]
fn white_space_around_the_input_does_not_count() {
    assert_eq!(char_to_direction(&typed("u\n")), Ok(Direction::Up));
    assert_eq!(char_to_direction(&typed("  \t r \r\n")), Ok(Direction::Right));
    assert_eq!(char_to_direction(&typed("\u{00A0}l\u{3000}\u{2003}\u{0085}")), Ok(Direction::Left));
    for space in [
        '\u{0009}', '\u{000A}', '\u{000B}', '\u{000C}', '\u{000D}', '\u{0020}', '\u{0085}',
        '\u{00A0}', '\u{1680}', '\u{2000}', '\u{2005}', '\u{200A}', '\u{2028}', '\u{2029}',
        '\u{202F}', '\u{205F}', '\u{3000}',
    ] {
        assert_eq!(
            char_to_direction(&format!("{}d{}", space, space)),
            Ok(Direction::Down),
            "around {:?}",
            space
        );
    }
    // These are no white space.
    for other in ['\u{0008}', '\u{000E}', '\u{001F}', '\u{0084}', '\u{180E}', '\u{200B}', '\u{2060}', '\u{FEFF}'] {
        assert!(char_to_direction(&format!("l{}", other)).is_err(), "after {:?}", other);
        assert!(char_to_direction(&format!("{}l", other)).is_err(), "before {:?}", other);
    }
    // White space inside stays.
    assert!(char_to_direction(&typed("l l")).is_err());
    assert_eq!(read_command(&typed(" 12 \n")), Command::Agent(12));
    assert_eq!(read_command(&typed("\tundo\n")), Command::Undo);
    assert_eq!(level_path(&typed(" example0\n")), "levels/testing_levels/example0.toml");
    assert_eq!(level_path(&typed("a b")), "levels/testing_levels/a b.toml");
    assert_eq!(level_path(&typed("")), "levels/testing_levels/.toml");
}

#[test]
fn a_command_names_an_agent_or_asks_for_an_undo() {
    assert_eq!(read_command(&typed("0")), Command::Agent(0));
    assert_eq!(read_command(&typed("255")), Command::Agent(255));
    assert_eq!(read_command(&typed("+7")), Command::Agent(7));
    assert_eq!(read_command(&typed("007")), Command::Agent(7));
    assert_eq!(read_command(&typed("undo")), Command::Undo);
    for other in ["", "256", "-1", "-0", "1 2", "Undo", "undo!", "one", "1.0"] {
        assert_eq!(read_command(&typed(other)), Command::Unknown, "for {:?}", other);
    }
}

#[test]
fn a_turn_moves_where_it_can_and_slides_otherwise() {
    let mut board = Board::new_test();
    assert!(take_turn(&mut board, 1, Direction::Up));
    assert_eq!(board.get_agent_position(1), Coordinate { x: 4, y: 1 });
    assert!(!take_turn(&mut board, 1, Direction::Left));
    assert_eq!(board.get_agent_position(1), Coordinate { x: 3, y: 1 });
    assert!(!take_turn(&mut board, 1, Direction::Stay));
    assert_eq!(board.get_agent_position(1), Coordinate { x: 3, y: 1 });
    assert_eq!(board.get_num_actions(), 3);
}

#[test]
fn a_lost_game_goes_on_from_before_the_last_action() {
    let mut board = Board::new_test();
    assert!(!settle(&mut board));
    assert_eq!(board.get_num_actions(), 0);
    take_turn(&mut board, 1, Direction::Up);
    assert!(!settle(&mut board));
    assert_eq!(board.get_num_actions(), 1);
    take_turn(&mut board, 0, Direction::Up);
    assert_eq!(board.get_game_state(), GameState::Lost);
    assert!(!settle(&mut board));
    assert_eq!(board.get_game_state(), GameState::Running);
    assert_eq!(board.get_num_actions(), 1);
    assert_eq!(board.get_agent_position(0), Coordinate { x: 4, y: 0 });
    assert_eq!(board.get_agent_position(1), Coordinate { x: 4, y: 1 });
}

#[test]
fn a_won_game_is_over() {
    let block = Placement {
        position: Coordinate { x: 0, y: 0 },
        block: Block::BasicBlock(BasicBlock::new(true, &vec![], SlideType::FastSlide, 1)),
    };
    let goal = VictoryCondition { name: typed("BlocksSatisfied"), goal: GoalType::AtLeast(1) };
    let mut board = Board::new(1, 1, &vec![block], &vec![goal], vec![Coordinate { x: 0, y: 0 }], 1)
        .ok()
        .unwrap();
    assert!(!settle(&mut board));
    take_turn(&mut board, 0, Direction::Stay);
    assert_eq!(board.get_game_state(), GameState::Won);
    assert!(settle(&mut board));
    assert_eq!(board.get_game_state(), GameState::Won);
    assert_eq!(board.get_num_actions(), 1);
}

fn lines_of(block: &Block) -> Vec<String> {
    (0..5).map(|line| draw_cell(block, line)).collect()
}

#[test]
fn a_block_is_drawn_in_five_lines() {
    assert_eq!(lines_of(&Block::Air(Air::new())), vec!["     "; 5]);
    let closed = Block::BasicBlock(BasicBlock::new(false, &vec![0, 3], SlideType::FastSlide, 0));
    assert_eq!(lines_of(&closed), vec!["█████", "█   █", "█   █", "█   █", "█████"]);
    let open = Block::BasicBlock(BasicBlock::new(true, &vec![0, 3, 4], SlideType::FastSlide, 0));
    assert_eq!(lines_of(&open), vec!["▒▒▒▒▒", "▒0  ▒", "▒   ▒", "▒  3▒", "▒▒▒▒▒"]);
    let empty = Block::BasicBlock(BasicBlock::new(true, &vec![], SlideType::FastSlide, 0));
    assert_eq!(lines_of(&empty), vec!["▒▒▒▒▒", "▒   ▒", "▒   ▒", "▒   ▒", "▒▒▒▒▒"]);
    let goal = Block::BasicBlock(BasicBlock::new(true, &vec![1, 2], SlideType::FastSlide, 3));
    assert_eq!(lines_of(&goal), vec!["▚▚▚▚▚", "▚  1▚", "▚3/2▚", "▚2  ▚", "▚▚▚▚▚"]);
    let crowd: Vec<u8> = (0..=255).collect();
    let full = Block::BasicBlock(BasicBlock::new(false, &crowd, SlideType::FastSlide, 120));
    assert_eq!(lines_of(&full), vec!["▚▚▚▚▚", "▚0 1▚", "▚120/256▚", "▚2 3▚", "▚▚▚▚▚"]);
    let none = Block::BasicBlock(BasicBlock::new(false, &vec![], SlideType::FastSlide, 7));
    assert_eq!(lines_of(&none)[2], "▚7/0▚");
}

#[test]
fn the_board_is_drawn_row_by_row() {
    let mut board = Board::new_test();
    let lines = draw_board(&board);
    assert_eq!(lines.len(), 25);
    let blank = "     ";
    assert_eq!(lines[0], format!("{}{}{}{}▒▒▒▒▒", blank, blank, blank, blank));
    assert_eq!(lines[1], format!("{}{}{}{}▒0  ▒", blank, blank, blank, blank));
    assert_eq!(lines[5], format!("▒▒▒▒▒{}{}▒▒▒▒▒{}", blank, blank, blank));
    assert_eq!(lines[12], format!("{}{}▚2/0▚{}{}", blank, blank, blank, blank));
    assert_eq!(lines[21], format!("{}{}{}{}▒  1▒", blank, blank, blank, blank));
    for line in 15..20 {
        assert_eq!(lines[line], blank.repeat(5));
    }
    board.slide_agent(0, Direction::Down);
    let lines = draw_board(&board);
    assert_eq!(lines[1], blank.repeat(5));
    assert_eq!(lines[16], format!("{}{}{}{}▒0  ▒", blank, blank, blank, blank));
    let tall = Board::new(1, 3, &vec![], &vec![], vec![], 0).ok().unwrap();
    assert_eq!(draw_board(&tall), vec![blank; 15]);
    let flat = Board::new(3, 0, &vec![], &vec![], vec![], 0).ok().unwrap();
    assert!(draw_board(&flat).is_empty());
}

#[test]
fn a_button_takes_its_colour_from_the_pointer() {
    for selected in [false, true] {
        assert_eq!(button_colour_update(ButtonInteraction::Pressed, selected), ButtonColour::Pressed);
    }
    assert_eq!(button_colour_update(ButtonInteraction::Idle, true), ButtonColour::Pressed);
    assert_eq!(button_colour_update(ButtonInteraction::Hovered, true), ButtonColour::HoveredPressed);
    assert_eq!(button_colour_update(ButtonInteraction::Hovered, false), ButtonColour::Hovered);
    assert_eq!(button_colour_update(ButtonInteraction::Idle, false), ButtonColour::Normal);
}

#[test]
fn a_button_acts_when_it_is_pressed() {
    let nothing = MenuChange { menu: None, screen: None, exit: false };
    for action in [
        MenuButtonAction::Play,
        MenuButtonAction::Exit,
        MenuButtonAction::Settings,
        MenuButtonAction::ToMainMenu,
    ] {
        assert_eq!(menu_action(ButtonInteraction::Hovered, action), nothing);
        assert_eq!(menu_action(ButtonInteraction::Idle, action), nothing);
    }
    assert_eq!(
        menu_action(ButtonInteraction::Pressed, MenuButtonAction::Play),
        MenuChange {
            menu: Some(MenuState::Disabled),
            screen: Some(FrontendState::LevelSelectMenu),
            exit: false
        }
    );
    assert_eq!(
        menu_action(ButtonInteraction::Pressed, MenuButtonAction::Exit),
        MenuChange { menu: None, screen: None, exit: true }
    );
    assert_eq!(
        menu_action(ButtonInteraction::Pressed, MenuButtonAction::Settings),
        MenuChange { menu: Some(MenuState::Settings), screen: None, exit: false }
    );
    assert_eq!(
        menu_action(ButtonInteraction::Pressed, MenuButtonAction::ToMainMenu),
        MenuChange { menu: Some(MenuState::Main), screen: None, exit: false }
    );
    assert_eq!(MenuState::default(), MenuState::Main);
    assert_eq!(FrontendState::default(), FrontendState::MainMenu);
}
