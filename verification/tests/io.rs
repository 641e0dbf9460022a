use std::collections::HashSet;

use sliding_game::backend::blocks::{BasicBlock, Block};
use sliding_game::backend::io::{block_factory, BoardLoadingError, Item, Section};
use sliding_game::backend::{Board, GameState};
use sliding_game::utils_backend::{Coordinate, Direction, SlideType, TextureType};

const TEST_LEVEL: &str = r#"
x_size = 5
y_size = 5
num_agents = 2

[victory_conditions]
BlocksSatisfied = 1

[block.4.0]
type = "basic_block"
[block.4.0.tags]
passable = true
num_goal_agents = 0

[block.0.1]
type = "basic_block"
[block.0.1.tags]
passable = true
num_goal_agents = 0
slide = "fast"

[block.3.1]
type = "basic_block"
[block.3.1.tags]
passable = true
num_goal_agents = 0

[block.2.2]
type = "basic_block"
[block.2.2.tags]
passable = true
num_goal_agents = 2

[block.4.4]
type = "basic_block"
[block.4.4.tags]
passable = true
num_goal_agents = 0

[agent.0]
start = [4, 0]

[agent.1]
start = [4, 4]
"#;

fn at(x: i8, y: i8) -> Coordinate {
    Coordinate { x, y }
}

fn load(text: &str) -> Board {
    match Board::from_toml(text) {
        Ok(board) => board,
        Err(error) => panic!("the level was not loaded: {:?}", error),
    }
}

fn failure(text: &str) -> BoardLoadingError {
    match Board::from_toml(text) {
        Ok(_) => panic!("the level was loaded"),
        Err(error) => error,
    }
}

fn refused(text: &str) -> String {
    match failure(text) {
        BoardLoadingError::BoardDescriptionError(message) => message,
        other => panic!("the text was not read: {:?}", other),
    }
}

/// A level of one row with one open block at (0, 0) and one agent on it,
/// with `head` before the tables and `tail` after them.
fn small_level(head: &str, tail: &str) -> String {
    format!(
        "x_size = 3\ny_size = 1\nnum_agents = 1\n{}\n[victory_conditions]\nBlocksSatisfied = 0\n\
         [block.0.0]\ntype = \"basic_block\"\n[block.0.0.tags]\npassable = true\nnum_goal_agents = 0\n\
         [agent.0]\nstart = [0, 0]\n{}\n",
        head, tail
    )
}

fn text(word: &str) -> Item {
    Item::Text(String::from(word))
}

fn section(entries: Vec<(&str, Item)>) -> Section {
    Section { entries: entries.into_iter().map(|(key, item)| (String::from(key), item)).collect() }
}

fn described(tags: Vec<(&str, Item)>) -> Result<Block, String> {
    block_factory(&section(vec![("type", text("basic_block")), ("tags", Item::Section(section(tags)))]))
}

fn texture_of(tags: Vec<(&str, Item)>) -> TextureType {
    match described(tags) {
        Ok(block) => block.get_texture(),
        Err(message) => panic!("no block was described: {}", message),
    }
}

fn complaint(block: Result<Block, String>) -> String {
    match block {
        Ok(_) => panic!("a block was described"),
        Err(message) => message,
    }
}

#[test]
fn the_test_level_loads_as_the_test_board() {
    let board = load(TEST_LEVEL);
    let expected = Board::new_test();
    assert_eq!(board.get_dimensions(), expected.get_dimensions());
    assert_eq!(board.get_num_agents(), 2);
    assert_eq!(board.get_num_agents_alive(), 2);
    assert_eq!(board.get_game_state(), GameState::Running);
    assert_eq!(board.get_progress("BlocksSatisfied"), Some(0));
    for x in 0..5 {
        for y in 0..5 {
            let (loaded, built) = (board.read_block(at(x, y)), expected.read_block(at(x, y)));
            assert_eq!(loaded.get_texture(), built.get_texture());
            assert_eq!(loaded.get_agents(), built.get_agents());
        }
    }
    assert_eq!(board.get_agent_position(0), at(4, 0));
    assert_eq!(board.get_agent_position(1), at(4, 4));
}

#[test]
fn a_loaded_board_can_be_played_and_undone() {
    let mut board = load(TEST_LEVEL);
    board.slide_agent(1, Direction::Up);
    assert_eq!(board.get_agent_position(1), at(4, 1));
    board.slide_agent(0, Direction::Up);
    assert_eq!(board.get_game_state(), GameState::Lost);
    board.undo();
    board.undo();
    assert_eq!(board.get_game_state(), GameState::Running);
    assert_eq!(board.get_agent_position(0), at(4, 0));
    assert_eq!(board.get_agent_position(1), at(4, 4));
    assert_eq!(board.read_block(at(4, 4)).get_agents(), HashSet::from([1]));
}

#[test]
fn text_that_is_not_toml_is_told_apart_from_a_bad_level() {
    assert_eq!(failure("x_size = "), BoardLoadingError::TOMLParsingError);
    assert_eq!(failure("[block"), BoardLoadingError::TOMLParsingError);
    assert_eq!(
        failure(""),
        BoardLoadingError::BoardDescriptionError(String::from("No victory conditions in level"))
    );
}

#[test]
fn must_finish_defaults_to_all_agents() {
    let mut all = load(&small_level("", ""));
    all.slide_agent(0, Direction::Up);
    assert_eq!(all.get_game_state(), GameState::Lost);
    let mut none = load(&small_level("num_agents_must_finish = 0", ""));
    none.slide_agent(0, Direction::Up);
    assert_eq!(none.get_game_state(), GameState::Won);
}

#[test]
fn the_slide_tag_sets_how_a_block_slides() {
    let level = |slide: &str| {
        format!(
            "x_size = 3\ny_size = 1\nnum_agents = 1\n[victory_conditions]\nBlocksSatisfied = 1\n\
             [block.0.0]\ntype = \"basic_block\"\n[block.0.0.tags]\npassable = true\n\
             num_goal_agents = 0\n{}\n[block.2.0]\ntype = \"basic_block\"\n[block.2.0.tags]\n\
             passable = false\nnum_goal_agents = 0\n[agent.0]\nstart = [0, 0]\n",
            slide
        )
    };
    for (slide, x) in [("", 1), ("slide = \"fast\"", 1), ("slide = 0", 0), ("slide = 3", 1), ("slide = 255", 1)] {
        let mut board = load(&level(slide));
        board.slide_agent(0, Direction::Right);
        assert_eq!(board.get_agent_position(0), at(x, 0), "with {:?}", slide);
    }
    for slide in ["slide = \"slow\"", "slide = true", "slide = 256", "slide = -1", "slide = 1.5"] {
        assert_eq!(refused(&level(slide)), "Block movement type not recognized", "with {:?}", slide);
    }
}

#[test]
fn keys_are_read_as_numbers() {
    let level = |x: &str, y: &str, agent: &str| {
        format!(
            "x_size = 4\ny_size = 4\nnum_agents = 1\n[victory_conditions]\n\
             [block.\"{}\".\"{}\"]\ntype = \"basic_block\"\n[block.\"{}\".\"{}\".tags]\n\
             passable = true\nnum_goal_agents = 0\n[agent.\"{}\"]\nstart = [3, 2]\n",
            x, y, x, y, agent
        )
    };
    for (x, y, agent) in [("3", "2", "0"), ("+3", "002", "+0"), ("03", "+2", "000")] {
        let board = load(&level(x, y, agent));
        assert_eq!(board.read_block(at(3, 2)).get_agents(), HashSet::from([0]));
        assert_eq!(board.read_block(at(2, 3)).get_texture(), TextureType::Blank);
    }
    for (x, y) in [("", "2"), ("3", ""), ("x", "2"), ("3", "2 "), ("+", "2"), ("3", "-"), ("128", "2"), ("3", "-129"), ("3.0", "2"), ("++3", "2")] {
        assert_eq!(refused(&level(x, y, "0")), "Coordinate not specified correctly", "at {:?}", (x, y));
    }
    for (x, y) in [("-1", "2"), ("3", "-0004"), ("4", "2"), ("3", "4"), ("127", "2"), ("-128", "2")] {
        assert_eq!(refused(&level(x, y, "0")), "Block out of bounds", "at {:?}", (x, y));
    }
    assert!(Board::from_toml(&level("3", "-0", "0")).is_err());
    for agent in ["", "a", "-0", "0 ", "256", "0x0", "+"] {
        assert_eq!(refused(&level("3", "2", agent)), "Invalid Agent ID (not an int)", "agent {:?}", agent);
    }
    for agent in ["1", "255", "+001"] {
        assert_eq!(refused(&level("3", "2", agent)), "Invalid Agent ID (too large)", "agent {:?}", agent);
    }
}

#[test]
fn the_victory_conditions_must_be_a_table_of_small_integers() {
    let level = |conditions: &str| {
        format!(
            "x_size = 1\ny_size = 1\nnum_agents = 0\n{}\n[block]\n[agent]\n",
            conditions
        )
    };
    assert_eq!(refused(&level("")), "No victory conditions in level");
    assert_eq!(refused(&level("victory_conditions = 3")), "Error in loading victory conditions");
    assert_eq!(
        refused(&level("[victory_conditions]\nA = 1\nB = \"1\"")),
        "Victory condition must be assigned integer value"
    );
    assert_eq!(
        refused(&level("[victory_conditions]\nA = 256")),
        "Victory condition must be between 0 and 255"
    );
    assert_eq!(
        refused(&level("[victory_conditions]\nA = -1")),
        "Victory condition must be between 0 and 255"
    );
    let mut board = load(&level("[victory_conditions]\nA = 0\nB = 255"));
    assert_eq!(board.get_progress("A"), Some(0));
    assert_eq!(board.get_progress("B"), Some(0));
    assert_eq!(board.get_progress("C"), None);
    assert_eq!(board.get_game_state(), GameState::Running);
    board.undo();
    assert_eq!(board.get_game_state(), GameState::Running);
}

#[test]
fn the_grid_must_have_a_size() {
    let level = |sizes: &str| {
        format!("{}\nnum_agents = 0\n[victory_conditions]\n[block]\n[agent]\n", sizes)
    };
    assert_eq!(refused(&level("y_size = 1")), "Missing x dimension\n");
    assert_eq!(refused(&level("x_size = 1")), "Missing y dimension\n");
    assert_eq!(refused(&level("x_size = \"1\"\ny_size = 1")), "x dimension was not an integer");
    assert_eq!(refused(&level("x_size = 1\ny_size = 1.0")), "y dimension was not an integer");
    assert_eq!(refused(&level("x_size = 128\ny_size = 1")), "x dimension is out of range");
    assert_eq!(refused(&level("x_size = 1\ny_size = -129")), "y dimension is out of range");
    assert_eq!(refused(&level("x_size = -1\ny_size = 1")), "Board dimensions must not be negative");
    assert_eq!(refused(&level("x_size = 1\ny_size = -128")), "Board dimensions must not be negative");
    assert_eq!(load(&level("x_size = 127\ny_size = 127")).get_dimensions(), (127, 127));
    assert_eq!(load(&level("x_size = 0\ny_size = 3")).get_dimensions(), (0, 3));
}

#[test]
fn the_blocks_must_be_tables_by_column_and_row() {
    let level = |blocks: &str| {
        format!(
            "x_size = 2\ny_size = 2\nnum_agents = 0\n{}\n[victory_conditions]\n[agent]\n",
            blocks
        )
    };
    assert_eq!(refused(&level("")), "No blocks found");
    assert_eq!(refused(&level("block = 3")), "Blocks not properly specified");
    assert_eq!(refused(&level("[block]\n0 = 3")), "Blocks not properly specified");
    assert_eq!(refused(&level("[block.0]\n0 = 3")), "Block has no entries");
    assert_eq!(refused(&level("[block.0.0]")), "Block type not specified");
    assert_eq!(refused(&level("[block.0.0]\ntype = 3")), "Block type not recognized");
    assert_eq!(refused(&level("[block.0.0]\ntype = \"air\"")), "Block type not recognized");
    assert_eq!(
        refused(&level("[block.0.0]\ntype = \"basic_block\"")),
        "Missing Tags to construct basic block"
    );
    assert_eq!(refused(&level("[block.0.0]\ntype = \"basic_block\"\ntags = 3")), "Missing tags block");
    // A row without blocks is not looked at any further.
    assert_eq!(load(&level("[block.x]")).read_block(at(0, 0)).get_texture(), TextureType::Blank);
    // The first block that is wrong decides, in the order of the keys.
    assert_eq!(
        refused(&level("[block.1.0]\ntype = 3\n[block.0.5]\ntype = \"basic_block\"")),
        "Block out of bounds"
    );
    assert_eq!(
        refused(&level("[block.0.1]\ntype = 3\n[block.0.5]\ntype = \"basic_block\"")),
        "Block type not recognized"
    );
}

#[test]
fn the_agents_must_be_described_one_by_one() {
    let level = |agents: &str| {
        format!(
            "x_size = 2\ny_size = 1\n{}\n[victory_conditions]\n[block.0.0]\ntype = \"basic_block\"\n\
             [block.0.0.tags]\npassable = true\nnum_goal_agents = 0\n[block.1.0]\n\
             type = \"basic_block\"\n[block.1.0.tags]\npassable = false\nnum_goal_agents = 0\n",
            agents
        )
    };
    assert_eq!(refused(&level("[agent]")), "Missing number of agents dimension");
    assert_eq!(refused(&level("num_agents = \"1\"\n[agent]")), "number of agents must be an integer");
    assert_eq!(refused(&level("num_agents = 256\n[agent]")), "number of agents must be between 0 and 255");
    assert_eq!(refused(&level("num_agents = -1\n[agent]")), "number of agents must be between 0 and 255");
    assert_eq!(
        refused(&level("num_agents = 1\nnum_agents_must_finish = true\n[agent]")),
        "number of agents must be an integer"
    );
    assert_eq!(
        refused(&level("num_agents = 1\nnum_agents_must_finish = 300\n[agent]")),
        "number of agents must be between 0 and 255"
    );
    assert_eq!(refused(&level("num_agents = 1")), "No agents in level");
    assert_eq!(refused(&level("num_agents = 1\nagent = 1")), "Error in loading agents");
    assert_eq!(
        refused(&level("num_agents = 2\n[agent.0]\nstart = [0, 0]")),
        "Number of agents specified does not match number of agents declared"
    );
    assert_eq!(
        refused(&level("num_agents = 0\n[agent.0]\nstart = [0, 0]")),
        "Number of agents specified does not match number of agents declared"
    );
    assert_eq!(refused(&level("num_agents = 1\n[agent]\n0 = 1")), "Agent missing info tags");
    assert_eq!(refused(&level("num_agents = 1\n[agent.0]")), "Agent missing start position");
    assert_eq!(
        refused(&level("num_agents = 1\n[agent.0]\nstart = 0")),
        "Agent start position must be array of two ints"
    );
    assert_eq!(
        refused(&level("num_agents = 1\n[agent.0]\nstart = [0]")),
        "Agent start position must be array of two ints"
    );
    assert_eq!(
        refused(&level("num_agents = 1\n[agent.0]\nstart = [0, 0, 0]")),
        "Agent start position must be array of two ints"
    );
    assert_eq!(
        refused(&level("num_agents = 1\n[agent.0]\nstart = [\"0\", 0]")),
        "X coordinate must be integer"
    );
    assert_eq!(
        refused(&level("num_agents = 1\n[agent.0]\nstart = [0, 0.0]")),
        "Y coordinate of agent must be integer"
    );
    for start in ["[2, 0]", "[0, 1]", "[-1, 0]", "[0, -1]", "[256, 0]", "[0, 9000000000]"] {
        assert_eq!(
            refused(&level(&format!("num_agents = 1\n[agent.0]\nstart = {}", start))),
            "Agent start position is out of bounds",
            "from {}",
            start
        );
    }
    assert_eq!(
        refused(&level("num_agents = 1\n[agent.0]\nstart = [1, 0]")),
        "Agent start placed on block that does not support agents"
    );
    assert_eq!(
        refused(&level("num_agents = 2\n[agent.1]\nstart = [0, 0]\n[agent.01]\nstart = [0, 0]")),
        "Agent ID given twice"
    );
    let board = load(&level("num_agents = 2\n[agent.1]\nstart = [0, 0]\n[agent.0]\nstart = [0, 0]"));
    assert_eq!(board.read_block(at(0, 0)).get_agents(), HashSet::from([0, 1]));
}

#[test]
fn an_agent_cannot_start_on_air() {
    let level = "x_size = 1\ny_size = 1\nnum_agents = 1\n[victory_conditions]\n[block]\n\
                 [agent.0]\nstart = [0, 0]\n";
    assert_eq!(refused(level), "Agent start placed on block that does not support agents");
}

#[test]
fn goal_blocks_need_their_statistic() {
    let level = |conditions: &str, goal: u32| {
        format!(
            "x_size = 1\ny_size = 1\nnum_agents = 1\n[victory_conditions]\n{}\n[block.0.0]\n\
             type = \"basic_block\"\n[block.0.0.tags]\npassable = true\nnum_goal_agents = {}\n\
             [agent.0]\nstart = [0, 0]\n",
            conditions, goal
        )
    };
    assert_eq!(refused(&level("Other = 1", 1)), "Goal blocks need the victory condition BlocksSatisfied");
    assert_eq!(load(&level("Other = 1", 0)).get_progress("Other"), Some(0));
    let mut board = load(&level("BlocksSatisfied = 1", 1));
    assert_eq!(board.read_block(at(0, 0)).get_texture(), TextureType::Goal(1));
    assert_eq!(board.get_progress("BlocksSatisfied"), Some(1));
    board.move_agent(0, Direction::Stay);
    assert_eq!(board.get_game_state(), GameState::Won);
}

#[test]
fn a_level_has_at_most_255_goal_blocks() {
    let level = |columns: u32| {
        let mut text = String::from(
            "x_size = 16\ny_size = 16\nnum_agents = 0\n[victory_conditions]\nBlocksSatisfied = 1\n[agent]\n",
        );
        for x in 0..columns {
            for y in 0..16 {
                text.push_str(&format!(
                    "[block.{}.{}]\ntype = \"basic_block\"\n[block.{}.{}.tags]\npassable = true\n\
                     num_goal_agents = 1\n",
                    x, y, x, y
                ));
            }
        }
        text
    };
    assert_eq!(refused(&level(16)), "A board has at most 255 goal blocks");
    assert_eq!(load(&level(15)).read_block(at(14, 15)).get_texture(), TextureType::Goal(1));
}

#[test]
fn a_block_says_what_it_is_in_its_tags() {
    assert_eq!(
        texture_of(vec![("passable", Item::Boolean(true)), ("num_goal_agents", Item::Integer(0))]),
        TextureType::BasicBlock
    );
    assert_eq!(
        texture_of(vec![("passable", Item::Boolean(false)), ("num_goal_agents", Item::Integer(0))]),
        TextureType::BasicImpassable
    );
    assert_eq!(
        texture_of(vec![("passable", Item::Boolean(false)), ("num_goal_agents", Item::Integer(255))]),
        TextureType::Goal(255)
    );
    // Of two entries with one key the first counts.
    assert_eq!(
        texture_of(vec![
            ("num_goal_agents", Item::Integer(4)),
            ("passable", Item::Boolean(true)),
            ("num_goal_agents", Item::Integer(5)),
        ]),
        TextureType::Goal(4)
    );
    assert_eq!(
        complaint(described(vec![("num_goal_agents", Item::Integer(0))])),
        "Block is missing the passable tag"
    );
    assert_eq!(
        complaint(described(vec![("passable", Item::Integer(1)), ("num_goal_agents", Item::Integer(0))])),
        "Block passable tag must be a boolean"
    );
    assert_eq!(
        complaint(described(vec![("passable", Item::Boolean(true))])),
        "Block is missing the num_goal_agents tag"
    );
    assert_eq!(
        complaint(described(vec![("passable", Item::Boolean(true)), ("num_goal_agents", text("2"))])),
        "Block num_goal_agents tag must be an integer"
    );
    for goal in [-1, 256, i64::MAX, i64::MIN] {
        assert_eq!(
            complaint(described(vec![
                ("passable", Item::Boolean(true)),
                ("num_goal_agents", Item::Integer(goal)),
            ])),
            "Block num_goal_agents tag must be between 0 and 255"
        );
    }
    assert_eq!(
        complaint(described(vec![
            ("passable", Item::Boolean(true)),
            ("num_goal_agents", Item::Integer(0)),
            ("slide", Item::Other),
        ])),
        "Block movement type not recognized"
    );
    assert_eq!(
        complaint(BasicBlock::from_table(&section(vec![("tags", Item::List(vec![]))]))),
        "Missing tags block"
    );
    assert_eq!(complaint(BasicBlock::from_table(&section(vec![]))), "Missing Tags to construct basic block");
}

#[test]
fn a_described_block_has_no_occupants_and_slides_as_it_says() {
    let mut block = match described(vec![
        ("passable", Item::Boolean(true)),
        ("num_goal_agents", Item::Integer(0)),
        ("slide", Item::Integer(7)),
    ]) {
        Ok(block) => block,
        Err(message) => panic!("no block was described: {}", message),
    };
    assert!(block.get_agents().is_empty());
    assert!(block.can_enter(Direction::Left));
    assert_eq!(block.start_slide(Direction::Left).0, SlideType::SlowSlide(7));
}

#[test]
fn a_level_can_be_handed_over_as_a_table() {
    let level = section(vec![
        ("x_size", Item::Integer(1)),
        ("y_size", Item::Integer(1)),
        ("num_agents", Item::Integer(0)),
        ("victory_conditions", Item::Section(section(vec![]))),
        ("block", Item::Section(section(vec![]))),
        ("agent", Item::Section(section(vec![]))),
    ]);
    assert!(Board::from_table(&level).is_ok());
    assert!(section(vec![("a", Item::Integer(1))]).get("a").is_some());
    assert!(section(vec![("a", Item::Integer(1))]).get("b").is_none());
}
