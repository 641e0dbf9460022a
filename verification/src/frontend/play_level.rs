//! Playing a level on the console: reading what the player types, taking
//! turns, and drawing the board as text.

use vstd::prelude::*;

use crate::backend::blocks::{Block, BlockView};
use crate::backend::io::agent_written;
use crate::backend::model::{undone, BoardView};
use crate::backend::{Board, GameState};
use crate::utils_backend::{AgentID, Coordinate, Direction, Index, PlayerInput, TextureType};

verus! {

/// Whether `c` is white space, as Unicode has it.
pub open spec fn is_white_space(c: char) -> bool {
    let code = c as u32;
    ||| 0x0009 <= code <= 0x000D
    ||| code == 0x0020
    ||| code == 0x0085
    ||| code == 0x00A0
    ||| code == 0x1680
    ||| 0x2000 <= code <= 0x200A
    ||| code == 0x2028
    ||| code == 0x2029
    ||| code == 0x202F
    ||| code == 0x205F
    ||| code == 0x3000
}

/// `text` without the white space that it starts with.
pub open spec fn without_leading_space(text: Seq<char>) -> Seq<char>
    decreases text.len(),
{
    if text.len() > 0 && is_white_space(text.first()) {
        without_leading_space(text.drop_first())
    } else {
        text
    }
}

/// `text` without the white space that it ends with.
pub open spec fn without_trailing_space(text: Seq<char>) -> Seq<char>
    decreases text.len(),
{
    if text.len() > 0 && is_white_space(text.last()) {
        without_trailing_space(text.drop_last())
    } else {
        text
    }
}

/// `text` without the white space around it.
pub open spec fn trimmed(text: Seq<char>) -> Seq<char> {
    without_trailing_space(without_leading_space(text))
}

/// Takes the white space around `text` away with `str::trim`.
///
/// Claimed and not proved: that `str::trim` removes exactly the leading and
/// trailing characters that have Unicode's property `White_Space`.
#[verifier::external_body]
fn trim<'a>(text: &'a str) -> (inner: &'a str)
    ensures
        inner@ == trimmed(text@),
{
    text.trim()
}

/// Whether `text` reads `word`.
fn reads(text: &str, word: &str) -> (same: bool)
    ensures
        same == (text@ == word@),
{
    String::from_str(text) == String::from_str(word)
}

/// The direction that `word` names: `u`, `d`, `l` or `r`.
pub open spec fn direction_named(word: Seq<char>) -> Option<Direction> {
    if word == "u"@ {
        Some(Direction::Up)
    } else if word == "d"@ {
        Some(Direction::Down)
    } else if word == "l"@ {
        Some(Direction::Left)
    } else if word == "r"@ {
        Some(Direction::Right)
    } else {
        None
    }
}

/// The direction that `input` names once the white space around it is
/// taken away.
pub fn char_to_direction(input: &String) -> (direction: Result<Direction, String>)
    ensures
        match direction {
            Ok(direction) => direction_named(trimmed(input@)) == Some(direction),
            Err(message) => direction_named(trimmed(input@)) is None && message@
                == "Not a direction"@,
        },
{
    let word = trim(input.as_str());
    if reads(word, "u") {
        return Ok(Direction::Up);
    }
    if reads(word, "d") {
        return Ok(Direction::Down);
    }
    if reads(word, "l") {
        return Ok(Direction::Left);
    }
    if reads(word, "r") {
        return Ok(Direction::Right);
    }
    Err(String::from_str("Not a direction"))
}

/// What the player asks for at the start of a turn.
#[derive(Clone, Copy, Debug, PartialEq, Eq, Structural)]
pub enum Command {
    /// To act with the agent of this number.
    Agent(AgentID),
    /// To take the last action back.
    Undo,
    /// Nothing that the game knows.
    Unknown,
}

/// What `word` asks for: an agent where it writes a number from 0 to 255,
/// an undo where it reads `undo`.
pub open spec fn command_named(word: Seq<char>) -> Command {
    match agent_written(word) {
        Some(agent) => Command::Agent(agent),
        None => if word == "undo"@ {
            Command::Undo
        } else {
            Command::Unknown
        },
    }
}

/// What `input` asks for once the white space around it is taken away.
pub fn read_command(input: &String) -> (command: Command)
    ensures
        command == command_named(trimmed(input@)),
{
    let word = trim(input.as_str());
    match crate::backend::io::parse_agent(word) {
        Some(agent) => Command::Agent(agent),
        None => {
            if reads(word, "undo") {
                Command::Undo
            } else {
                Command::Unknown
            }
        },
    }
}

/// Where the level that the player names is kept.
pub fn level_path(name: &String) -> (path: String)
    ensures
        path@ == "levels/testing_levels/"@ + trimmed(name@) + ".toml"@,
{
    let mut path = String::from_str("levels/testing_levels/");
    path.append(trim(name.as_str()));
    path.append(".toml");
    path
}

/// A turn: the agent steps in `direction` where it can, and slides
/// otherwise. Says whether it slid.
pub fn take_turn(board: &mut Board, agent: AgentID, direction: Direction) -> (slid: bool)
    requires
        old(board).wf(),
        old(board)@.allows(PlayerInput::Slide(agent, direction)),
    ensures
        final(board).wf(),
        final(board).level() == old(board).level(),
        slid == !old(board)@.can_move(agent, direction),
        !slid ==> final(board)@ == old(board)@.moved(agent, direction) && final(board).log()
            == old(board).log().push(PlayerInput::Move(agent, direction)),
        slid ==> final(board)@ == old(board)@.slid(agent, direction) && final(board).log()
            == old(board).log().push(PlayerInput::Slide(agent, direction)),
{
    if board.can_move_agent(agent, direction) {
        board.move_agent(agent, direction);
        false
    } else {
        board.slide_agent(agent, direction);
        true
    }
}

/// What follows a turn: a game that is won is over; one that is lost goes
/// on from before the last action; one that is running goes on. Says
/// whether the game is over.
pub fn settle(board: &mut Board) -> (over: bool)
    requires
        old(board).wf(),
    ensures
        final(board).wf(),
        final(board).level() == old(board).level(),
        over == (old(board)@.state == GameState::Won),
        old(board)@.state == GameState::Lost ==> final(board).log() == undone(old(board).log())
            && final(board)@ == old(board).level().start().replay(undone(old(board).log())),
        old(board)@.state != GameState::Lost ==> final(board)@ == old(board)@ && final(board).log()
            == old(board).log(),
{
    match board.get_game_state() {
        GameState::Won => true,
        GameState::Lost => {
            board.undo();
            false
        },
        GameState::Running => false,
    }
}

/// The character that writes the digit `digit`.
pub open spec fn digit_char(digit: nat) -> char {
    if digit == 0 {
        '0'
    } else if digit == 1 {
        '1'
    } else if digit == 2 {
        '2'
    } else if digit == 3 {
        '3'
    } else if digit == 4 {
        '4'
    } else if digit == 5 {
        '5'
    } else if digit == 6 {
        '6'
    } else if digit == 7 {
        '7'
    } else if digit == 8 {
        '8'
    } else {
        '9'
    }
}

/// `number` written in decimal, without leading zeros.
pub open spec fn decimal_text(number: nat) -> Seq<char>
    decreases number,
{
    if number < 10 {
        seq![digit_char(number)]
    } else {
        decimal_text(number / 10).push(digit_char(number % 10))
    }
}

/// Writes `number` with `format!`.
///
/// Claimed and not proved: that an integer is formatted as its decimal
/// digits without leading zeros.
#[verifier::external_body]
fn show_number(number: usize) -> (text: String)
    ensures
        text@ == decimal_text(number as nat),
{
    format!("{}", number)
}

/// How an agent shows in a cell: by `name` where it is an occupant, by a
/// blank where it is none.
pub open spec fn agent_mark(agents: Set<AgentID>, agent: AgentID, name: Seq<char>) -> Seq<char> {
    if agents.contains(agent) {
        name
    } else {
        " "@
    }
}

/// A line of a cell that shows two agents between `edge`s.
pub open spec fn agents_line(
    edge: Seq<char>,
    agents: Set<AgentID>,
    left: AgentID,
    left_name: Seq<char>,
    right: AgentID,
    right_name: Seq<char>,
) -> Seq<char> {
    edge + agent_mark(agents, left, left_name) + " "@ + agent_mark(agents, right, right_name)
        + edge
}

/// Line `line` of the five lines of text that draw a block. Air is blank.
/// A block has a frame; inside, the second line shows agents 0 and 1, the
/// fourth agents 2 and 3, where they are occupants; the third shows, for a
/// block that asks for occupants, how many it asks for and how many it has.
pub open spec fn cell_line(block: BlockView, line: int) -> Seq<char> {
    let agents = block.agents();
    match block.texture() {
        TextureType::Blank => "     "@,
        TextureType::BasicImpassable => if line == 0 || line == 4 {
            "\u{2588}\u{2588}\u{2588}\u{2588}\u{2588}"@
        } else {
            "\u{2588}   \u{2588}"@
        },
        TextureType::BasicBlock => if line == 0 || line == 4 {
            "\u{2592}\u{2592}\u{2592}\u{2592}\u{2592}"@
        } else if line == 1 {
            agents_line("\u{2592}"@, agents, 0, "0"@, 1, "1"@)
        } else if line == 3 {
            agents_line("\u{2592}"@, agents, 2, "2"@, 3, "3"@)
        } else {
            "\u{2592}   \u{2592}"@
        },
        TextureType::Goal(wanted) => if line == 0 || line == 4 {
            "\u{259A}\u{259A}\u{259A}\u{259A}\u{259A}"@
        } else if line == 1 {
            agents_line("\u{259A}"@, agents, 0, "0"@, 1, "1"@)
        } else if line == 3 {
            agents_line("\u{259A}"@, agents, 2, "2"@, 3, "3"@)
        } else {
            "\u{259A}"@ + decimal_text(wanted as nat) + "/"@ + decimal_text(agents.len())
                + "\u{259A}"@
        },
    }
}

/// Line `line` of the first `upto` cells of row `y`, side by side.
pub open spec fn row_line(board: BoardView, y: Index, line: int, upto: nat) -> Seq<char>
    decreases upto,
{
    if upto == 0 {
        Seq::empty()
    } else {
        row_line(board, y, line, (upto - 1) as nat) + cell_line(
            board.cell(Coordinate { x: (upto - 1) as Index, y }),
            line,
        )
    }
}

/// How `agent` shows in `block`: by `name` or by a blank.
fn mark_of(block: &Block, agent: AgentID, name: &'static str) -> (mark: &'static str)
    ensures
        mark@ == agent_mark(block@.agents(), agent, name@),
{
    if block.has_agent(agent) {
        name
    } else {
        " "
    }
}

/// The line of a cell that shows two agents between `edge`s.
fn line_of_agents(
    edge: &str,
    block: &Block,
    left: AgentID,
    left_name: &'static str,
    right: AgentID,
    right_name: &'static str,
) -> (text: String)
    ensures
        text@ == agents_line(edge@, block@.agents(), left, left_name@, right, right_name@),
{
    let mut text = String::from_str(edge);
    text.append(mark_of(block, left, left_name));
    text.append(" ");
    text.append(mark_of(block, right, right_name));
    text.append(edge);
    text
}

/// Line `line` of the five lines of text that draw `block`.
pub fn draw_cell(block: &Block, line: u8) -> (text: String)
    requires
        line < 5,
    ensures
        text@ == cell_line(block@, line as int),
{
    match block.get_texture() {
        TextureType::Blank => String::from_str("     "),
        TextureType::BasicImpassable => {
            if line == 0 || line == 4 {
                String::from_str("\u{2588}\u{2588}\u{2588}\u{2588}\u{2588}")
            } else {
                String::from_str("\u{2588}   \u{2588}")
            }
        },
        TextureType::BasicBlock => {
            if line == 0 || line == 4 {
                String::from_str("\u{2592}\u{2592}\u{2592}\u{2592}\u{2592}")
            } else if line == 1 {
                line_of_agents("\u{2592}", block, 0, "0", 1, "1")
            } else if line == 3 {
                line_of_agents("\u{2592}", block, 2, "2", 3, "3")
            } else {
                String::from_str("\u{2592}   \u{2592}")
            }
        },
        TextureType::Goal(wanted) => {
            if line == 0 || line == 4 {
                String::from_str("\u{259A}\u{259A}\u{259A}\u{259A}\u{259A}")
            } else if line == 1 {
                line_of_agents("\u{259A}", block, 0, "0", 1, "1")
            } else if line == 3 {
                line_of_agents("\u{259A}", block, 2, "2", 3, "3")
            } else {
                let mut text = String::from_str("\u{259A}");
                text.append(show_number(wanted as usize).as_str());
                text.append("/");
                text.append(show_number(block.num_agents()).as_str());
                text.append("\u{259A}");
                text
            }
        },
    }
}

/// The board as lines of text, five for each row of cells from the top,
/// in each of which the cells of the row stand side by side.
pub fn draw_board(board: &Board) -> (lines: Vec<String>)
    requires
        board.wf(),
    ensures
        lines@.len() == 5 * board@.y_size,
        forall|y: Index, line: int|
            0 <= y < board@.y_size && 0 <= line < 5 ==> (#[trigger] lines@[5 * y + line])@
                == row_line(board@, y, line, board@.x_size as nat),
{
    let (x_size, y_size) = board.get_dimensions();
    let mut lines: Vec<String> = Vec::new();
    let mut y: Index = 0;
    while y < y_size
        invariant
            board.wf(),
            (x_size, y_size) == (board@.x_size, board@.y_size),
            0 <= y <= y_size,
            lines@.len() == 5 * y,
            forall|row: Index, line: int|
                0 <= row < y && 0 <= line < 5 ==> (#[trigger] lines@[5 * row + line])@ == row_line(
                    board@,
                    row,
                    line,
                    x_size as nat,
                ),
        decreases y_size - y,
    {
        let mut line: u8 = 0;
        while line < 5
            invariant
                board.wf(),
                (x_size, y_size) == (board@.x_size, board@.y_size),
                0 <= y < y_size,
                line <= 5,
                lines@.len() == 5 * y + line,
                forall|row: Index, l: int|
                    0 <= row < y && 0 <= l < 5 ==> (#[trigger] lines@[5 * row + l])@ == row_line(
                        board@,
                        row,
                        l,
                        x_size as nat,
                    ),
                forall|l: int|
                    0 <= l < line ==> (#[trigger] lines@[5 * y + l])@ == row_line(
                        board@,
                        y,
                        l,
                        x_size as nat,
                    ),
            decreases 5 - line,
        {
            let mut text = String::new();
            let mut x: Index = 0;
            while x < x_size
                invariant
                    board.wf(),
                    (x_size, y_size) == (board@.x_size, board@.y_size),
                    0 <= y < y_size,
                    0 <= x <= x_size,
                    line < 5,
                    text@ == row_line(board@, y, line as int, x as nat),
                decreases x_size - x,
            {
                let cell = draw_cell(board.read_block(Coordinate { x, y }), line);
                text.append(cell.as_str());
                x += 1;
            }
            let ghost before = lines@;
            lines.push(text);
            proof {
                assert forall|row: Index, l: int| 0 <= row < y && 0 <= l < 5 implies (
                #[trigger] lines@[5 * row + l])@ == row_line(board@, row, l, x_size as nat) by {
                    assert(lines@[5 * row + l] == before[5 * row + l]);
                }
                assert forall|l: int| 0 <= l < line + 1 implies (#[trigger] lines@[5 * y + l])@
                    == row_line(board@, y, l, x_size as nat) by {
                    if l < line {
                        assert(lines@[5 * y + l] == before[5 * y + l]);
                    }
                }
            }
            line += 1;
        }
        y += 1;
    }
    lines
}

} // verus!
