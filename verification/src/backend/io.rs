//! Loading a board from the description of a level.
//!
//! A level is described in TOML. `toml` parses the text; what it has parsed
//! is copied into `Section` and `Item`, and everything that decides whether
//! the description is one of a level, and of which, works on those.

use vstd::prelude::*;

use super::blocks::{BasicBlock, Block, BlockView};
use super::model::SetupView;
use super::{
    basic_block_view, blocks_view, lay_out, place_of, setup_view, within, Board, Placement,
    VictoryCondition,
};
use crate::utils_backend::{
    AgentID, Coordinate, Direction, GoalType, Index, PlayerInput, SlideType,
};

verus! {

/// A table of a level description: its entries in the order of their keys.
pub struct Section {
    pub entries: Vec<(String, Item)>,
}

/// A value of a level description.
pub enum Item {
    Text(String),
    Integer(i64),
    Boolean(bool),
    List(Vec<Item>),
    Section(Section),
    /// A float or a date, which no level has a use for.
    Other,
}

impl Section {
    /// The value of the first entry from place `from` on whose key is `key`.
    pub open spec fn lookup_from(self, key: Seq<char>, from: int) -> Option<Item>
        decreases self.entries@.len() - from,
    {
        if from < 0 || from >= self.entries@.len() {
            None
        } else if self.entries@[from].0@ == key {
            Some(self.entries@[from].1)
        } else {
            self.lookup_from(key, from + 1)
        }
    }

    /// The value of the first entry whose key is `key`.
    pub open spec fn lookup(self, key: Seq<char>) -> Option<Item> {
        self.lookup_from(key, 0)
    }

    /// The value of the first entry whose key is `key`.
    pub fn get(&self, key: &str) -> (item: Option<&Item>)
        ensures
            match item {
                Some(found) => self.lookup(key@) == Some(*found),
                None => self.lookup(key@) is None,
            },
    {
        let wanted = String::from_str(key);
        let mut i: usize = 0;
        while i < self.entries.len()
            invariant
                i <= self.entries.len(),
                wanted@ == key@,
                self.lookup(key@) == self.lookup_from(key@, i as int),
            decreases self.entries.len() - i,
        {
            if self.entries[i].0 == wanted {
                return Some(&self.entries[i].1);
            }
            i += 1;
        }
        None
    }
}

/// `toml::Value`; nothing is said of what one holds.
#[verifier::external_type_specification]
#[verifier::external_body]
pub struct ExTomlValue(toml::Value);

/// What `toml` makes of a text: the document, or nothing where the text is
/// not TOML.
pub uninterp spec fn parsed_toml(text: Seq<char>) -> Option<Section>;

/// Parses `text` with `toml`'s `Table::from_str` and copies the table.
///
/// Claimed and not proved: that the same text always gives the same
/// outcome.
#[verifier::external_body]
fn parse_toml(text: &str) -> (document: Option<Section>)
    ensures
        document == parsed_toml(text@),
{
    match text.parse::<toml::Table>() {
        Ok(table) => Some(
            Section { entries: table.iter().map(|(key, value)| (key.clone(), item_of(value))).collect() },
        ),
        Err(_) => None,
    }
}

/// Copies a `toml::Value`, variant by variant; tables entry by entry in the
/// order in which `toml`'s `Map::iter` hands them out.
#[verifier::external_body]
fn item_of(value: &toml::Value) -> (item: Item) {
    match value {
        toml::Value::String(text) => Item::Text(text.clone()),
        toml::Value::Integer(number) => Item::Integer(*number),
        toml::Value::Boolean(truth) => Item::Boolean(*truth),
        toml::Value::Array(items) => Item::List(items.iter().map(item_of).collect()),
        toml::Value::Table(table) => Item::Section(
            Section { entries: table.iter().map(|(key, value)| (key.clone(), item_of(value))).collect() },
        ),
        toml::Value::Float(_) => Item::Other,
        toml::Value::Datetime(_) => Item::Other,
    }
}

/// The value of a decimal digit.
pub open spec fn digit_value(c: char) -> Option<int> {
    if '0' <= c <= '9' {
        Some(c as int - '0' as int)
    } else {
        None
    }
}

/// The number that `digits` writes in decimal, if they are decimal digits
/// and at least one.
pub open spec fn decimal_value(digits: Seq<char>) -> Option<int>
    decreases digits.len(),
{
    if digits.len() == 0 {
        None
    } else {
        match digit_value(digits.last()) {
            None => None,
            Some(digit) => if digits.len() == 1 {
                Some(digit)
            } else {
                match decimal_value(digits.drop_last()) {
                    None => None,
                    Some(tens) => Some(10 * tens + digit),
                }
            },
        }
    }
}

/// The `Index` that `text` writes: decimal digits after at most one sign,
/// of a number within the range of `Index`.
pub open spec fn index_written(text: Seq<char>) -> Option<Index> {
    let negative = text.len() > 0 && text[0] == '-';
    let signed = text.len() > 0 && (text[0] == '-' || text[0] == '+');
    let digits = if signed {
        text.drop_first()
    } else {
        text
    };
    match decimal_value(digits) {
        None => None,
        Some(value) => {
            let number = if negative {
                -value
            } else {
                value
            };
            if Index::MIN <= number <= Index::MAX {
                Some(number as Index)
            } else {
                None
            }
        },
    }
}

/// The `AgentID` that `text` writes: decimal digits after at most a plus
/// sign, of a number within the range of `AgentID`.
pub open spec fn agent_written(text: Seq<char>) -> Option<AgentID> {
    let signed = text.len() > 0 && text[0] == '+';
    let digits = if signed {
        text.drop_first()
    } else {
        text
    };
    match decimal_value(digits) {
        None => None,
        Some(value) => if value <= AgentID::MAX {
            Some(value as AgentID)
        } else {
            None
        },
    }
}

/// Reads an `Index` with `str::parse`.
///
/// Claimed and not proved: that `str::parse::<i8>` accepts decimal digits
/// after at most one sign, of a number that fits, and nothing else.
#[verifier::external_body]
fn parse_index(text: &str) -> (index: Option<Index>)
    ensures
        index == index_written(text@),
{
    text.parse::<Index>().ok()
}

/// Reads an `AgentID` with `str::parse`.
///
/// Claimed and not proved: that `str::parse::<u8>` accepts decimal digits
/// after at most a plus sign, of a number that fits, and nothing else.
#[verifier::external_body]
pub(crate) fn parse_agent(text: &str) -> (agent: Option<AgentID>)
    ensures
        agent == agent_written(text@),
{
    text.parse::<AgentID>().ok()
}

/// Whether a block lets agents in, as its tags say: the tag `passable` must
/// be there and be a boolean.
pub open spec fn passable_of(tags: Section) -> Result<bool, Seq<char>> {
    match tags.lookup("passable"@) {
        None => Err("Block is missing the passable tag"@),
        Some(Item::Boolean(passable)) => Ok(passable),
        Some(_) => Err("Block passable tag must be a boolean"@),
    }
}

/// How many occupants a block asks for, as its tags say: the tag
/// `num_goal_agents` must be there and be an integer from 0 to 255.
pub open spec fn goal_agents_of(tags: Section) -> Result<u8, Seq<char>> {
    match tags.lookup("num_goal_agents"@) {
        None => Err("Block is missing the num_goal_agents tag"@),
        Some(Item::Integer(number)) => if 0 <= number <= u8::MAX {
            Ok(number as u8)
        } else {
            Err("Block num_goal_agents tag must be between 0 and 255"@)
        },
        Some(_) => Err("Block num_goal_agents tag must be an integer"@),
    }
}

/// How a block slides, as its tags say: fast where the tag `slide` is
/// missing or is the text `fast`; not at all where it is 0; in steps where
/// it is an integer from 1 to 255.
pub open spec fn slide_of(tags: Section) -> Result<SlideType, Seq<char>> {
    match tags.lookup("slide"@) {
        None => Ok(SlideType::FastSlide),
        Some(Item::Text(text)) => if text@ == "fast"@ {
            Ok(SlideType::FastSlide)
        } else {
            Err("Block movement type not recognized"@)
        },
        Some(Item::Integer(number)) => if number == 0 {
            Ok(SlideType::NoSlide)
        } else if 0 < number <= u8::MAX {
            Ok(SlideType::SlowSlide(number as u8))
        } else {
            Err("Block movement type not recognized"@)
        },
        Some(_) => Err("Block movement type not recognized"@),
    }
}

/// The basic block that `block` describes: its entry `tags` must be a table
/// that says whether the block is passable, how many occupants it asks for,
/// and, if it likes, how it slides.
pub open spec fn basic_block_of(block: Section) -> Result<BlockView, Seq<char>> {
    match block.lookup("tags"@) {
        None => Err("Missing Tags to construct basic block"@),
        Some(Item::Section(tags)) => match passable_of(tags) {
            Err(message) => Err(message),
            Ok(passable) => match goal_agents_of(tags) {
                Err(message) => Err(message),
                Ok(num_goal_agents) => match slide_of(tags) {
                    Err(message) => Err(message),
                    Ok(default_slide) => Ok(
                        basic_block_view(passable, default_slide, num_goal_agents),
                    ),
                },
            },
        },
        Some(_) => Err("Missing tags block"@),
    }
}

/// The block that `block` describes: its entry `type` must be the text
/// `basic_block`, and the rest must describe a basic block.
pub open spec fn block_of(block: Section) -> Result<BlockView, Seq<char>> {
    match block.lookup("type"@) {
        None => Err("Block type not specified"@),
        Some(Item::Text(kind)) => if kind@ == "basic_block"@ {
            basic_block_of(block)
        } else {
            Err("Block type not recognized"@)
        },
        Some(_) => Err("Block type not recognized"@),
    }
}

/// Whether `text` reads `word`.
fn reads(text: &String, word: &str) -> (same: bool)
    ensures
        same == (text@ == word@),
{
    *text == String::from_str(word)
}

fn passable_tag(tags: &Section) -> (passable: Result<bool, String>)
    ensures
        match passable {
            Ok(passable) => passable_of(*tags) == Ok::<bool, Seq<char>>(passable),
            Err(message) => passable_of(*tags) == Err::<bool, Seq<char>>(message@),
        },
{
    match tags.get("passable") {
        None => Err(String::from_str("Block is missing the passable tag")),
        Some(Item::Boolean(passable)) => Ok(*passable),
        Some(_) => Err(String::from_str("Block passable tag must be a boolean")),
    }
}

fn goal_agents_tag(tags: &Section) -> (goal: Result<u8, String>)
    ensures
        match goal {
            Ok(goal) => goal_agents_of(*tags) == Ok::<u8, Seq<char>>(goal),
            Err(message) => goal_agents_of(*tags) == Err::<u8, Seq<char>>(message@),
        },
{
    match tags.get("num_goal_agents") {
        None => Err(String::from_str("Block is missing the num_goal_agents tag")),
        Some(Item::Integer(number)) => {
            if 0 <= *number && *number <= 255 {
                Ok(*number as u8)
            } else {
                Err(String::from_str("Block num_goal_agents tag must be between 0 and 255"))
            }
        },
        Some(_) => Err(String::from_str("Block num_goal_agents tag must be an integer")),
    }
}

fn slide_tag(tags: &Section) -> (slide: Result<SlideType, String>)
    ensures
        match slide {
            Ok(slide) => slide_of(*tags) == Ok::<SlideType, Seq<char>>(slide),
            Err(message) => slide_of(*tags) == Err::<SlideType, Seq<char>>(message@),
        },
{
    match tags.get("slide") {
        None => Ok(SlideType::FastSlide),
        Some(Item::Text(text)) => {
            if reads(text, "fast") {
                Ok(SlideType::FastSlide)
            } else {
                Err(String::from_str("Block movement type not recognized"))
            }
        },
        Some(Item::Integer(number)) => {
            if *number == 0 {
                Ok(SlideType::NoSlide)
            } else if 0 < *number && *number <= 255 {
                Ok(SlideType::SlowSlide(*number as u8))
            } else {
                Err(String::from_str("Block movement type not recognized"))
            }
        },
        Some(_) => Err(String::from_str("Block movement type not recognized")),
    }
}

impl BasicBlock {
    /// The basic block that `block_table` describes, without occupants.
    pub fn from_table(block_table: &Section) -> (block: Result<Block, String>)
        ensures
            match block {
                Ok(block) => basic_block_of(*block_table) == Ok::<BlockView, Seq<char>>(block@),
                Err(message) => basic_block_of(*block_table) == Err::<BlockView, Seq<char>>(
                    message@,
                ),
            },
    {
        match block_table.get("tags") {
            None => Err(String::from_str("Missing Tags to construct basic block")),
            Some(Item::Section(tags)) => {
                let passable = match passable_tag(tags) {
                    Ok(passable) => passable,
                    Err(message) => {
                        return Err(message);
                    },
                };
                let num_goal_agents = match goal_agents_tag(tags) {
                    Ok(goal) => goal,
                    Err(message) => {
                        return Err(message);
                    },
                };
                let default_slide = match slide_tag(tags) {
                    Ok(slide) => slide,
                    Err(message) => {
                        return Err(message);
                    },
                };
                let nobody: Vec<AgentID> = Vec::new();
                assert(nobody@.to_set() =~= Set::<AgentID>::empty());
                Ok(
                    Block::BasicBlock(
                        BasicBlock::new(passable, &nobody, default_slide, num_goal_agents),
                    ),
                )
            },
            Some(_) => Err(String::from_str("Missing tags block")),
        }
    }
}

/// The block that `block_table` describes, without occupants.
pub fn block_factory(block_table: &Section) -> (block: Result<Block, String>)
    ensures
        match block {
            Ok(block) => block_of(*block_table) == Ok::<BlockView, Seq<char>>(block@),
            Err(message) => block_of(*block_table) == Err::<BlockView, Seq<char>>(message@),
        },
{
    match block_table.get("type") {
        None => Err(String::from_str("Block type not specified")),
        Some(Item::Text(kind)) => {
            if reads(kind, "basic_block") {
                BasicBlock::from_table(block_table)
            } else {
                Err(String::from_str("Block type not recognized"))
            }
        },
        Some(_) => Err(String::from_str("Block type not recognized")),
    }
}

/// Why a board could not be loaded.
#[derive(Debug, PartialEq, Eq)]
pub enum BoardLoadingError {
    FileNotFound,
    FileReadingError,
    TOMLParsingError,
    /// The description is none of a level, for the reason given.
    BoardDescriptionError(String),
}

/// The victory conditions that the entries from place `k` on add to those
/// `found`: each entry names a statistic that must stand at exactly the
/// integer it gives, from 0 to 255.
pub open spec fn conditions_from(
    entries: Seq<(String, Item)>,
    k: int,
    found: Seq<(Seq<char>, GoalType)>,
) -> Result<Seq<(Seq<char>, GoalType)>, Seq<char>>
    decreases entries.len() - k,
{
    if k < 0 || k >= entries.len() {
        Ok(found)
    } else {
        match entries[k].1 {
            Item::Integer(number) => if 0 <= number <= u8::MAX {
                conditions_from(
                    entries,
                    k + 1,
                    found.push((entries[k].0@, GoalType::Exactly(number as u8))),
                )
            } else {
                Err("Victory condition must be between 0 and 255"@)
            },
            _ => Err("Victory condition must be assigned integer value"@),
        }
    }
}

/// The victory conditions of a level: its entry `victory_conditions` must
/// be a table of them.
pub open spec fn victory_conditions_of(level: Section) -> Result<
    Seq<(Seq<char>, GoalType)>,
    Seq<char>,
> {
    match level.lookup("victory_conditions"@) {
        None => Err("No victory conditions in level"@),
        Some(Item::Section(conditions)) => conditions_from(conditions.entries@, 0, Seq::empty()),
        Some(_) => Err("Error in loading victory conditions"@),
    }
}

/// The extent of the grid along `x`: the entry `x_size` must be an integer
/// within the range of `Index`.
pub open spec fn x_size_of(level: Section) -> Result<Index, Seq<char>> {
    match level.lookup("x_size"@) {
        None => Err("Missing x dimension\n"@),
        Some(Item::Integer(number)) => if Index::MIN <= number <= Index::MAX {
            Ok(number as Index)
        } else {
            Err("x dimension is out of range"@)
        },
        Some(_) => Err("x dimension was not an integer"@),
    }
}

/// The extent of the grid along `y`: the entry `y_size` must be an integer
/// within the range of `Index`.
pub open spec fn y_size_of(level: Section) -> Result<Index, Seq<char>> {
    match level.lookup("y_size"@) {
        None => Err("Missing y dimension\n"@),
        Some(Item::Integer(number)) => if Index::MIN <= number <= Index::MAX {
            Ok(number as Index)
        } else {
            Err("y dimension is out of range"@)
        },
        Some(_) => Err("y dimension was not an integer"@),
    }
}

/// The blocks that the entries of a row from place `k` on add to those
/// `found`. The row's key writes `x`; each entry's key writes `y` and its
/// value must be a table that describes a block within the grid.
pub open spec fn row_from(
    row: Seq<(String, Item)>,
    x_key: Seq<char>,
    x_size: Index,
    y_size: Index,
    k: int,
    found: Seq<(Coordinate, BlockView)>,
) -> Result<Seq<(Coordinate, BlockView)>, Seq<char>>
    decreases row.len() - k,
{
    if k < 0 || k >= row.len() {
        Ok(found)
    } else {
        match row[k].1 {
            Item::Section(block) => match (index_written(x_key), index_written(row[k].0@)) {
                (Some(x), Some(y)) => if !(0 <= x < x_size && 0 <= y < y_size) {
                    Err("Block out of bounds"@)
                } else {
                    match block_of(block) {
                        Err(message) => Err(message),
                        Ok(described) => row_from(
                            row,
                            x_key,
                            x_size,
                            y_size,
                            k + 1,
                            found.push((Coordinate { x, y }, described)),
                        ),
                    }
                },
                _ => Err("Coordinate not specified correctly"@),
            },
            _ => Err("Block has no entries"@),
        }
    }
}

/// The blocks that the rows from place `k` on add to those `found`: each
/// row must be a table of blocks.
pub open spec fn rows_from(
    rows: Seq<(String, Item)>,
    x_size: Index,
    y_size: Index,
    k: int,
    found: Seq<(Coordinate, BlockView)>,
) -> Result<Seq<(Coordinate, BlockView)>, Seq<char>>
    decreases rows.len() - k,
{
    if k < 0 || k >= rows.len() {
        Ok(found)
    } else {
        match rows[k].1 {
            Item::Section(row) => match row_from(row.entries@, rows[k].0@, x_size, y_size, 0, found) {
                Err(message) => Err(message),
                Ok(more) => rows_from(rows, x_size, y_size, k + 1, more),
            },
            _ => Err("Blocks not properly specified"@),
        }
    }
}

/// The size of the grid and the blocks in it that are not air: the entry
/// `block` must be a table of rows by `x`, each a table of blocks by `y`.
pub open spec fn blocks_of(level: Section) -> Result<
    (Index, Index, Seq<(Coordinate, BlockView)>),
    Seq<char>,
> {
    match x_size_of(level) {
        Err(message) => Err(message),
        Ok(x_size) => match y_size_of(level) {
            Err(message) => Err(message),
            Ok(y_size) => match level.lookup("block"@) {
                None => Err("No blocks found"@),
                Some(Item::Section(rows)) => match rows_from(
                    rows.entries@,
                    x_size,
                    y_size,
                    0,
                    Seq::empty(),
                ) {
                    Err(message) => Err(message),
                    Ok(placements) => Ok((x_size, y_size, placements)),
                },
                Some(_) => Err("Blocks not properly specified"@),
            },
        },
    }
}

/// The number of agents: the entry `num_agents` must be an integer from 0
/// to 255.
pub open spec fn agent_count_of(level: Section) -> Result<u8, Seq<char>> {
    match level.lookup("num_agents"@) {
        None => Err("Missing number of agents dimension"@),
        Some(Item::Integer(number)) => if 0 <= number <= u8::MAX {
            Ok(number as u8)
        } else {
            Err("number of agents must be between 0 and 255"@)
        },
        Some(_) => Err("number of agents must be an integer"@),
    }
}

/// The number of agents that must finish: all of them where the entry
/// `num_agents_must_finish` is missing, else the integer from 0 to 255 that
/// it must be.
pub open spec fn must_finish_of(level: Section, num_agents: u8) -> Result<u8, Seq<char>> {
    match level.lookup("num_agents_must_finish"@) {
        None => Ok(num_agents),
        Some(Item::Integer(number)) => if 0 <= number <= u8::MAX {
            Ok(number as u8)
        } else {
            Err("number of agents must be between 0 and 255"@)
        },
        Some(_) => Err("number of agents must be an integer"@),
    }
}

/// Where an agent starts: the entry `start` must be a list of two integers
/// that give a coordinate within the grid whose block lets agents in.
pub open spec fn start_of(info: Section, x_size: Index, y_size: Index, cells: Seq<BlockView>) -> Result<
    Coordinate,
    Seq<char>,
> {
    match info.lookup("start"@) {
        None => Err("Agent missing start position"@),
        Some(Item::List(place)) => if place@.len() != 2 {
            Err("Agent start position must be array of two ints"@)
        } else {
            match place@[0] {
                Item::Integer(x) => match place@[1] {
                    Item::Integer(y) => if !(0 <= x < x_size && 0 <= y < y_size) {
                        Err("Agent start position is out of bounds"@)
                    } else if !cells[x * y_size + y].can_enter(Direction::Stay) {
                        Err("Agent start placed on block that does not support agents"@)
                    } else {
                        Ok(Coordinate { x: x as Index, y: y as Index })
                    },
                    _ => Err("Y coordinate of agent must be integer"@),
                },
                _ => Err("X coordinate must be integer"@),
            }
        },
        Some(_) => Err("Agent start position must be array of two ints"@),
    }
}

/// Where the agents start, once the entries from place `k` on have been
/// added to `starts`, in which an agent without a start yet is off the
/// board. Each entry's key writes an agent below `num_agents` that has no
/// start yet, and its value must be a table that says where the agent
/// starts.
pub open spec fn agents_from(
    agents: Seq<(String, Item)>,
    num_agents: u8,
    x_size: Index,
    y_size: Index,
    cells: Seq<BlockView>,
    k: int,
    starts: Seq<Coordinate>,
) -> Result<Seq<Coordinate>, Seq<char>>
    decreases agents.len() - k,
{
    if k < 0 || k >= agents.len() {
        Ok(starts)
    } else {
        match agents[k].1 {
            Item::Section(info) => match agent_written(agents[k].0@) {
                None => Err("Invalid Agent ID (not an int)"@),
                Some(agent) => if agent >= num_agents {
                    Err("Invalid Agent ID (too large)"@)
                } else if starts[agent as int] != Coordinate::off_board() {
                    Err("Agent ID given twice"@)
                } else {
                    match start_of(info, x_size, y_size, cells) {
                        Err(message) => Err(message),
                        Ok(start) => agents_from(
                            agents,
                            num_agents,
                            x_size,
                            y_size,
                            cells,
                            k + 1,
                            starts.update(agent as int, start),
                        ),
                    }
                },
            },
            _ => Err("Agent missing info tags"@),
        }
    }
}

/// The grid that the agents of a level start on; a grid of a negative size
/// has no cells.
pub open spec fn grid_of(x_size: Index, y_size: Index, placements: Seq<(Coordinate, BlockView)>) -> Seq<
    BlockView,
> {
    if x_size < 0 || y_size < 0 {
        Seq::empty()
    } else {
        (SetupView {
            x_size,
            y_size,
            placements,
            conditions: Seq::empty(),
            starts: Seq::empty(),
            must_finish: 0,
        }).level().blocks
    }
}

/// How many agents there are, how many of them must finish, and where
/// each starts: the entry `agent` must be a table with one entry for each
/// agent.
pub open spec fn agents_of(level: Section, x_size: Index, y_size: Index, cells: Seq<BlockView>) -> Result<
    (u8, Seq<Coordinate>),
    Seq<char>,
> {
    match agent_count_of(level) {
        Err(message) => Err(message),
        Ok(num_agents) => match must_finish_of(level, num_agents) {
            Err(message) => Err(message),
            Ok(must_finish) => match level.lookup("agent"@) {
                None => Err("No agents in level"@),
                Some(Item::Section(agents)) => if agents.entries@.len() != num_agents {
                    Err("Number of agents specified does not match number of agents declared"@)
                } else {
                    match agents_from(
                        agents.entries@,
                        num_agents,
                        x_size,
                        y_size,
                        cells,
                        0,
                        Seq::new(num_agents as nat, |a: int| Coordinate::off_board()),
                    ) {
                        Err(message) => Err(message),
                        Ok(starts) => Ok((must_finish, starts)),
                    }
                },
                Some(_) => Err("Error in loading agents"@),
            },
        },
    }
}

/// What a level asks a board to be built from: its victory conditions, its
/// blocks and its agents, looked at in this order.
pub open spec fn setup_of(level: Section) -> Result<SetupView, Seq<char>> {
    match victory_conditions_of(level) {
        Err(message) => Err(message),
        Ok(conditions) => match blocks_of(level) {
            Err(message) => Err(message),
            Ok((x_size, y_size, placements)) => match agents_of(
                level,
                x_size,
                y_size,
                grid_of(x_size, y_size, placements),
            ) {
                Err(message) => Err(message),
                Ok((must_finish, starts)) => Ok(
                    SetupView { x_size, y_size, placements, conditions, starts, must_finish },
                ),
            },
        },
    }
}

/// Why `level` describes no board, if it describes none.
pub open spec fn description_error(level: Section) -> Option<Seq<char>> {
    match setup_of(level) {
        Err(message) => Some(message),
        Ok(setup) => setup.error(),
    }
}

/// The victory conditions as mathematical values.
pub open spec fn conditions_view(conditions: Seq<VictoryCondition>) -> Seq<(Seq<char>, GoalType)> {
    conditions.map_values(|c: VictoryCondition| (c.name@, c.goal))
}

/// The blocks of a level as mathematical values.
pub open spec fn placements_view(placements: Seq<Placement>) -> Seq<(Coordinate, BlockView)> {
    placements.map_values(|p: Placement| (p.position, p.block@))
}

/// An integer as an `Index`, if it is one.
fn as_index(number: i64) -> (index: Option<Index>)
    ensures
        index == if Index::MIN <= number <= Index::MAX {
            Some(number as Index)
        } else {
            None
        },
{
    if -128 <= number && number <= 127 {
        Some(number as Index)
    } else {
        None
    }
}

/// An integer as a count of agents, if it is one.
fn as_count(number: i64) -> (count: Option<u8>)
    ensures
        count == if 0 <= number <= u8::MAX {
            Some(number as u8)
        } else {
            None
        },
{
    if 0 <= number && number <= 255 {
        Some(number as u8)
    } else {
        None
    }
}

/// Reads where an agent starts on the grid of `cells`.
fn load_start(info: &Section, x_size: Index, y_size: Index, cells: &Vec<Block>) -> (start: Result<
    Coordinate,
    String,
>)
    requires
        0 <= x_size && 0 <= y_size ==> cells@.len() == x_size * y_size,
    ensures
        match start {
            Ok(start) => start_of(*info, x_size, y_size, blocks_view(cells@)) == Ok::<
                Coordinate,
                Seq<char>,
            >(start),
            Err(message) => start_of(*info, x_size, y_size, blocks_view(cells@)) == Err::<
                Coordinate,
                Seq<char>,
            >(message@),
        },
{
    let place = match info.get("start") {
        None => {
            return Err(String::from_str("Agent missing start position"));
        },
        Some(Item::List(place)) => place,
        Some(_) => {
            return Err(String::from_str("Agent start position must be array of two ints"));
        },
    };
    if place.len() != 2 {
        return Err(String::from_str("Agent start position must be array of two ints"));
    }
    let x = match &place[0] {
        Item::Integer(x) => *x,
        _ => {
            return Err(String::from_str("X coordinate must be integer"));
        },
    };
    let y = match &place[1] {
        Item::Integer(y) => *y,
        _ => {
            return Err(String::from_str("Y coordinate of agent must be integer"));
        },
    };
    if !(0 <= x && x < x_size as i64 && 0 <= y && y < y_size as i64) {
        return Err(String::from_str("Agent start position is out of bounds"));
    }
    let start = Coordinate { x: x as Index, y: y as Index };
    let index = place_of(x_size, y_size, start);
    if !cells[index].can_enter(Direction::Stay) {
        return Err(String::from_str("Agent start placed on block that does not support agents"));
    }
    Ok(start)
}

/// Whether `outcome` is what loading `level` must come to: the board at the
/// start of the level that it describes, or the reason why it describes
/// none.
pub open spec fn is_loaded_from(outcome: Result<Board, BoardLoadingError>, level: Section) -> bool {
    match outcome {
        Ok(board) => {
            &&& description_error(level) is None
            &&& setup_of(level) matches Ok(setup) && {
                &&& board.wf()
                &&& board.log() == Seq::<PlayerInput>::empty()
                &&& board.level() == setup.level()
                &&& board@ == setup.level().start()
            }
        },
        Err(BoardLoadingError::BoardDescriptionError(message)) => description_error(level) == Some(
            message@,
        ),
        Err(_) => false,
    }
}

impl Board {
    /// Reads the victory conditions of `level`.
    pub fn load_victory_conditions(level: &Section) -> (conditions: Result<
        Vec<VictoryCondition>,
        String,
    >)
        ensures
            match conditions {
                Ok(conditions) => victory_conditions_of(*level) == Ok::<
                    Seq<(Seq<char>, GoalType)>,
                    Seq<char>,
                >(conditions_view(conditions@)),
                Err(message) => victory_conditions_of(*level) == Err::<
                    Seq<(Seq<char>, GoalType)>,
                    Seq<char>,
                >(message@),
            },
    {
        let victory_conditions = match level.get("victory_conditions") {
            None => {
                return Err(String::from_str("No victory conditions in level"));
            },
            Some(Item::Section(conditions)) => conditions,
            Some(_) => {
                return Err(String::from_str("Error in loading victory conditions"));
            },
        };
        let ghost entries = victory_conditions.entries@;
        let mut found: Vec<VictoryCondition> = Vec::new();
        let mut k: usize = 0;
        assert(conditions_view(found@) =~= Seq::empty());
        while k < victory_conditions.entries.len()
            invariant
                k <= entries.len(),
                entries == victory_conditions.entries@,
                victory_conditions_of(*level) == conditions_from(
                    entries,
                    k as int,
                    conditions_view(found@),
                ),
            decreases entries.len() - k,
        {
            let ghost before = conditions_view(found@);
            let value = match &victory_conditions.entries[k].1 {
                Item::Integer(number) => match as_count(*number) {
                    Some(value) => value,
                    None => {
                        return Err(String::from_str("Victory condition must be between 0 and 255"));
                    },
                },
                _ => {
                    return Err(
                        String::from_str("Victory condition must be assigned integer value"),
                    );
                },
            };
            found.push(
                VictoryCondition {
                    name: victory_conditions.entries[k].0.clone(),
                    goal: GoalType::Exactly(value),
                },
            );
            assert(conditions_view(found@) =~= before.push(
                (entries[k as int].0@, GoalType::Exactly(value)),
            ));
            k += 1;
        }
        Ok(found)
    }

    /// Reads the size of the grid of `level` and its blocks that are not
    /// air.
    pub fn load_blocks(level: &Section) -> (blocks: Result<(Index, Index, Vec<Placement>), String>)
        ensures
            match blocks {
                Ok((x_size, y_size, placements)) => {
                    &&& blocks_of(*level) == Ok::<
                        (Index, Index, Seq<(Coordinate, BlockView)>),
                        Seq<char>,
                    >((x_size, y_size, placements_view(placements@)))
                    &&& forall|k: int|
                        0 <= k < placements@.len() ==> 0 <= (#[trigger] placements@[k]).position.x
                            < x_size && 0 <= placements@[k].position.y < y_size
                },
                Err(message) => blocks_of(*level) == Err::<
                    (Index, Index, Seq<(Coordinate, BlockView)>),
                    Seq<char>,
                >(message@),
            },
    {
        let x_size = match level.get("x_size") {
            None => {
                return Err(String::from_str("Missing x dimension\n"));
            },
            Some(Item::Integer(number)) => match as_index(*number) {
                Some(size) => size,
                None => {
                    return Err(String::from_str("x dimension is out of range"));
                },
            },
            Some(_) => {
                return Err(String::from_str("x dimension was not an integer"));
            },
        };
        let y_size = match level.get("y_size") {
            None => {
                return Err(String::from_str("Missing y dimension\n"));
            },
            Some(Item::Integer(number)) => match as_index(*number) {
                Some(size) => size,
                None => {
                    return Err(String::from_str("y dimension is out of range"));
                },
            },
            Some(_) => {
                return Err(String::from_str("y dimension was not an integer"));
            },
        };
        let rows = match level.get("block") {
            None => {
                return Err(String::from_str("No blocks found"));
            },
            Some(Item::Section(rows)) => rows,
            Some(_) => {
                return Err(String::from_str("Blocks not properly specified"));
            },
        };
        let ghost all_rows = rows_from(rows.entries@, x_size, y_size, 0, Seq::empty());
        let mut found: Vec<Placement> = Vec::new();
        let mut i: usize = 0;
        assert(placements_view(found@) =~= Seq::empty());
        while i < rows.entries.len()
            invariant
                i <= rows.entries.len(),
                blocks_of(*level) == match all_rows {
                    Err(message) => Err::<(Index, Index, Seq<(Coordinate, BlockView)>), Seq<char>>(
                        message,
                    ),
                    Ok(placements) => Ok((x_size, y_size, placements)),
                },
                all_rows == rows_from(
                    rows.entries@,
                    x_size,
                    y_size,
                    i as int,
                    placements_view(found@),
                ),
                forall|k: int|
                    0 <= k < found@.len() ==> 0 <= (#[trigger] found@[k]).position.x < x_size && 0
                        <= found@[k].position.y < y_size,
            decreases rows.entries.len() - i,
        {
            let row = match &rows.entries[i].1 {
                Item::Section(row) => row,
                _ => {
                    return Err(String::from_str("Blocks not properly specified"));
                },
            };
            let ghost x_key = rows.entries@[i as int].0@;
            let ghost this_row = row_from(
                row.entries@,
                x_key,
                x_size,
                y_size,
                0,
                placements_view(found@),
            );
            let mut j: usize = 0;
            while j < row.entries.len()
                invariant
                    j <= row.entries.len(),
                    i < rows.entries.len(),
                    x_key == rows.entries@[i as int].0@,
                    blocks_of(*level) == match all_rows {
                        Err(message) => Err::<
                            (Index, Index, Seq<(Coordinate, BlockView)>),
                            Seq<char>,
                        >(message),
                        Ok(placements) => Ok((x_size, y_size, placements)),
                    },
                    all_rows == match this_row {
                        Err(message) => Err::<Seq<(Coordinate, BlockView)>, Seq<char>>(message),
                        Ok(more) => rows_from(rows.entries@, x_size, y_size, i + 1, more),
                    },
                    this_row == row_from(
                        row.entries@,
                        x_key,
                        x_size,
                        y_size,
                        j as int,
                        placements_view(found@),
                    ),
                    forall|k: int|
                        0 <= k < found@.len() ==> 0 <= (#[trigger] found@[k]).position.x < x_size
                            && 0 <= found@[k].position.y < y_size,
                decreases row.entries.len() - j,
            {
                let ghost before = placements_view(found@);
                let block_table = match &row.entries[j].1 {
                    Item::Section(block_table) => block_table,
                    _ => {
                        return Err(String::from_str("Block has no entries"));
                    },
                };
                let x = match parse_index(rows.entries[i].0.as_str()) {
                    Some(x) => x,
                    None => {
                        return Err(String::from_str("Coordinate not specified correctly"));
                    },
                };
                let y = match parse_index(row.entries[j].0.as_str()) {
                    Some(y) => y,
                    None => {
                        return Err(String::from_str("Coordinate not specified correctly"));
                    },
                };
                let position = Coordinate { x, y };
                if !within(x_size, y_size, position) {
                    return Err(String::from_str("Block out of bounds"));
                }
                match block_factory(block_table) {
                    Err(message) => {
                        return Err(message);
                    },
                    Ok(block) => {
                        found.push(Placement { position, block });
                        assert(placements_view(found@) =~= before.push((position, block@)));
                    },
                }
                j += 1;
            }
            i += 1;
        }
        Ok((x_size, y_size, found))
    }

    /// Reads how many agents of `level` must finish and where each of its
    /// agents starts on the grid of `cells`.
    pub fn load_agents(level: &Section, x_size: Index, y_size: Index, cells: &Vec<Block>) -> (agents:
        Result<(u8, Vec<Coordinate>), String>)
        requires
            0 <= x_size && 0 <= y_size ==> cells@.len() == x_size * y_size,
        ensures
            match agents {
                Ok((must_finish, starts)) => agents_of(
                    *level,
                    x_size,
                    y_size,
                    blocks_view(cells@),
                ) == Ok::<(u8, Seq<Coordinate>), Seq<char>>((must_finish, starts@)),
                Err(message) => agents_of(*level, x_size, y_size, blocks_view(cells@)) == Err::<
                    (u8, Seq<Coordinate>),
                    Seq<char>,
                >(message@),
            },
    {
        let num_agents = match level.get("num_agents") {
            None => {
                return Err(String::from_str("Missing number of agents dimension"));
            },
            Some(Item::Integer(number)) => match as_count(*number) {
                Some(count) => count,
                None => {
                    return Err(String::from_str("number of agents must be between 0 and 255"));
                },
            },
            Some(_) => {
                return Err(String::from_str("number of agents must be an integer"));
            },
        };
        let must_finish = match level.get("num_agents_must_finish") {
            None => num_agents,
            Some(Item::Integer(number)) => match as_count(*number) {
                Some(count) => count,
                None => {
                    return Err(String::from_str("number of agents must be between 0 and 255"));
                },
            },
            Some(_) => {
                return Err(String::from_str("number of agents must be an integer"));
            },
        };
        let agents = match level.get("agent") {
            None => {
                return Err(String::from_str("No agents in level"));
            },
            Some(Item::Section(agents)) => agents,
            Some(_) => {
                return Err(String::from_str("Error in loading agents"));
            },
        };
        if agents.entries.len() != num_agents as usize {
            return Err(
                String::from_str(
                    "Number of agents specified does not match number of agents declared",
                ),
            );
        }
        let mut starts: Vec<Coordinate> = Vec::new();
        while starts.len() < num_agents as usize
            invariant
                starts@.len() <= num_agents,
                forall|a: int| 0 <= a < starts@.len() ==> starts@[a] == Coordinate::off_board(),
            decreases num_agents - starts.len(),
        {
            starts.push(Coordinate::out_of_bound());
        }
        assert(starts@ =~= Seq::new(num_agents as nat, |a: int| Coordinate::off_board()));
        let ghost all_agents = agents_from(
            agents.entries@,
            num_agents,
            x_size,
            y_size,
            blocks_view(cells@),
            0,
            starts@,
        );
        let mut k: usize = 0;
        while k < agents.entries.len()
            invariant
                k <= agents.entries.len(),
                starts@.len() == num_agents,
                0 <= x_size && 0 <= y_size ==> cells@.len() == x_size * y_size,
                agents_of(*level, x_size, y_size, blocks_view(cells@)) == match all_agents {
                    Err(message) => Err::<(u8, Seq<Coordinate>), Seq<char>>(message),
                    Ok(starts) => Ok((must_finish, starts)),
                },
                all_agents == agents_from(
                    agents.entries@,
                    num_agents,
                    x_size,
                    y_size,
                    blocks_view(cells@),
                    k as int,
                    starts@,
                ),
            decreases agents.entries.len() - k,
        {
            let info = match &agents.entries[k].1 {
                Item::Section(info) => info,
                _ => {
                    return Err(String::from_str("Agent missing info tags"));
                },
            };
            let agent = match parse_agent(agents.entries[k].0.as_str()) {
                None => {
                    return Err(String::from_str("Invalid Agent ID (not an int)"));
                },
                Some(agent) => agent,
            };
            if agent >= num_agents {
                return Err(String::from_str("Invalid Agent ID (too large)"));
            }
            if starts[agent as usize] != Coordinate::out_of_bound() {
                return Err(String::from_str("Agent ID given twice"));
            }
            let start = match load_start(info, x_size, y_size, cells) {
                Ok(start) => start,
                Err(message) => {
                    return Err(message);
                },
            };
            starts[agent as usize] = start;
            k += 1;
        }
        Ok((must_finish, starts))
    }

    /// The board at the start of the level that `level` describes.
    pub fn from_table(level: &Section) -> (board: Result<Board, BoardLoadingError>)
        ensures
            is_loaded_from(board, *level),
    {
        let victory_conditions = match Board::load_victory_conditions(level) {
            Ok(conditions) => conditions,
            Err(message) => {
                return Err(BoardLoadingError::BoardDescriptionError(message));
            },
        };
        let (x_size, y_size, blocks) = match Board::load_blocks(level) {
            Ok(blocks) => blocks,
            Err(message) => {
                return Err(BoardLoadingError::BoardDescriptionError(message));
            },
        };
        let cells = if x_size < 0 || y_size < 0 {
            Vec::new()
        } else {
            match lay_out(x_size, y_size, &blocks) {
                Some(cells) => cells,
                None => {
                    proof {
                        let laid = setup_view(x_size, y_size, blocks@, Seq::empty(), Seq::empty(), 0);
                        let k = choose|k: int|
                            0 <= k < laid.placements.len() && !laid.in_bounds(
                                (#[trigger] laid.placements[k]).0,
                            );
                        assert(laid.placements[k].0 == blocks@[k].position);
                    }
                    Vec::new()
                },
            }
        };
        proof {
            assert(placements_view(blocks@) == setup_view(
                x_size,
                y_size,
                blocks@,
                Seq::empty(),
                Seq::empty(),
                0,
            ).placements);
            assert(blocks_view(cells@) =~= grid_of(x_size, y_size, placements_view(blocks@)));
        }
        let (must_finish, starts) = match Board::load_agents(level, x_size, y_size, &cells) {
            Ok(agents) => agents,
            Err(message) => {
                return Err(BoardLoadingError::BoardDescriptionError(message));
            },
        };
        match Board::new(x_size, y_size, &blocks, &victory_conditions, starts, must_finish) {
            Ok(board) => Ok(board),
            Err(message) => Err(BoardLoadingError::BoardDescriptionError(message)),
        }
    }

    /// The board at the start of the level that `text` describes in TOML.
    pub fn from_toml(text: &str) -> (board: Result<Board, BoardLoadingError>)
        ensures
            match parsed_toml(text@) {
                None => board matches Err(BoardLoadingError::TOMLParsingError),
                Some(level) => is_loaded_from(board, level),
            },
    {
        match parse_toml(text) {
            None => Err(BoardLoadingError::TOMLParsingError),
            Some(level) => Board::from_table(&level),
        }
    }
}

} // verus!
