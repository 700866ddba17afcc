//! Verified core of the Disciples-like strategy game: room and lobby logic of
//! the PvP server, the locale tables, in-game time, ini value codecs, map
//! helpers and battle-field geometry.
use vstd::prelude::*;

pub mod advini;
pub mod army;
pub mod ai;
pub mod battlefield;
pub mod board;
pub mod bonus;
pub mod dtm;
pub mod editor;
pub mod effects;
pub mod events;
pub mod hotel;
pub mod hwid;
pub mod items;
pub mod launcher;
pub mod lobby;
pub mod locale;
pub mod map;
pub mod mapdata;
pub mod object;
pub mod parse;
pub mod protocol;
pub mod registry;
pub mod room;
pub mod sorted;
pub mod text;
pub mod validators;
pub mod time;
pub mod units;

verus! {

/// Screens of the game's menu.
#[derive(Debug, Clone, Copy, PartialEq, Eq, Structural)]
pub enum Menu {
    Main,
    Start,
    Load,
    Settings,
    Authors,
    UnitView,
    Battle,
    Items,
    Connect,
    ConnectBattle,
}

} // verus!
