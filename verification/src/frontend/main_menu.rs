//! The main menu: what its buttons look like and what pressing them does.

use vstd::prelude::*;

use super::frontend_utils::FrontendState;

verus! {

/// Which page of the menu is shown.
#[derive(Clone, Copy, Default, PartialEq, Eq, Debug, Hash, Structural)]
pub enum MenuState {
    #[default]
    Main,
    Disabled,
    Settings,
}

/// What a button of the menu is for.
#[derive(Clone, Copy, PartialEq, Eq, Debug, Structural)]
pub enum MenuButtonAction {
    Play,
    Exit,
    Settings,
    ToMainMenu,
}

/// What the pointer does to a button.
#[derive(Clone, Copy, PartialEq, Eq, Debug, Structural)]
pub enum ButtonInteraction {
    Pressed,
    Hovered,
    Idle,
}

/// The colours that a button can have.
#[derive(Clone, Copy, PartialEq, Eq, Debug, Structural)]
pub enum ButtonColour {
    Normal,
    Hovered,
    HoveredPressed,
    Pressed,
}

/// What pressing a button asks of the front end.
#[derive(Clone, Copy, PartialEq, Eq, Debug, Structural)]
pub struct MenuChange {
    /// The page of the menu to go to, if any.
    pub menu: Option<MenuState>,
    /// The screen to go to, if any.
    pub screen: Option<FrontendState>,
    /// Whether to leave the program.
    pub exit: bool,
}

/// The colour of a button: that of a pressed one while it is pressed, and
/// while it is selected and the pointer is elsewhere; otherwise that of a
/// hovered or a normal one, the former in two kinds for selected and other
/// buttons.
pub open spec fn colour_of(interaction: ButtonInteraction, selected: bool) -> ButtonColour {
    match (interaction, selected) {
        (ButtonInteraction::Pressed, _) => ButtonColour::Pressed,
        (ButtonInteraction::Idle, true) => ButtonColour::Pressed,
        (ButtonInteraction::Hovered, true) => ButtonColour::HoveredPressed,
        (ButtonInteraction::Hovered, false) => ButtonColour::Hovered,
        (ButtonInteraction::Idle, false) => ButtonColour::Normal,
    }
}

/// The colour that a button gets when the pointer does `interaction` to it.
pub fn button_colour_update(interaction: ButtonInteraction, selected: bool) -> (colour: ButtonColour)
    ensures
        colour == colour_of(interaction, selected),
{
    match (interaction, selected) {
        (ButtonInteraction::Pressed, _) | (ButtonInteraction::Idle, true) => ButtonColour::Pressed,
        (ButtonInteraction::Hovered, true) => ButtonColour::HoveredPressed,
        (ButtonInteraction::Hovered, false) => ButtonColour::Hovered,
        (ButtonInteraction::Idle, false) => ButtonColour::Normal,
    }
}

/// The change that asks for nothing.
pub open spec fn no_change() -> MenuChange {
    MenuChange { menu: None, screen: None, exit: false }
}

/// What the button for `action` asks for when the pointer does
/// `interaction` to it: nothing unless it is pressed; then to play a level
/// with the menu put away, to leave, or to turn to a page of the menu.
pub open spec fn change_of(interaction: ButtonInteraction, action: MenuButtonAction) -> MenuChange {
    if interaction != ButtonInteraction::Pressed {
        no_change()
    } else {
        match action {
            MenuButtonAction::Play => MenuChange {
                menu: Some(MenuState::Disabled),
                screen: Some(FrontendState::LevelSelectMenu),
                exit: false,
            },
            MenuButtonAction::Exit => MenuChange { menu: None, screen: None, exit: true },
            MenuButtonAction::Settings => MenuChange {
                menu: Some(MenuState::Settings),
                screen: None,
                exit: false,
            },
            MenuButtonAction::ToMainMenu => MenuChange {
                menu: Some(MenuState::Main),
                screen: None,
                exit: false,
            },
        }
    }
}

/// What the button for `action` asks for when the pointer does
/// `interaction` to it.
pub fn menu_action(interaction: ButtonInteraction, action: MenuButtonAction) -> (change: MenuChange)
    ensures
        change == change_of(interaction, action),
{
    match interaction {
        ButtonInteraction::Pressed => match action {
            MenuButtonAction::Play => MenuChange {
                menu: Some(MenuState::Disabled),
                screen: Some(FrontendState::LevelSelectMenu),
                exit: false,
            },
            MenuButtonAction::Exit => MenuChange { menu: None, screen: None, exit: true },
            MenuButtonAction::Settings => MenuChange {
                menu: Some(MenuState::Settings),
                screen: None,
                exit: false,
            },
            MenuButtonAction::ToMainMenu => MenuChange {
                menu: Some(MenuState::Main),
                screen: None,
                exit: false,
            },
        },
        _ => MenuChange { menu: None, screen: None, exit: false },
    }
}

} // verus!
