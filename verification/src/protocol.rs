//! Messages between a battle client and the battle server.
use crate::battlefield::BattleUnitPos;
use vstd::prelude::*;

verus! {

/// A move sent by the client: the army acting and the place acted upon.
#[derive(Debug, Clone, Copy, PartialEq, Eq)]
pub struct OutcomingEvent(pub (usize, usize));

/// A request received by the battle room from a player.
#[derive(Debug, Clone, Copy, PartialEq, Eq)]
pub enum Incoming {
    Disconnect,
    GetState,
    Action(BattleUnitPos),
    SetItem((BattleUnitPos, (usize, Option<usize>))),
    SetUnit((BattleUnitPos, Option<usize>)),
    Status(bool),
}

} // verus!
