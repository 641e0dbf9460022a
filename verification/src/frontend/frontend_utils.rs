//! What the parts of the graphical front end share.

use vstd::prelude::*;

verus! {

/// Which screen the front end shows.
#[derive(Clone, Copy, Default, PartialEq, Eq, Debug, Hash, Structural)]
pub enum FrontendState {
    #[default]
    MainMenu,
    LevelSelectMenu,
}

} // verus!
