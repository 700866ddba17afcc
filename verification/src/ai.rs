//! Decisions of the computer player in a battle.
use crate::battlefield::BattleUnitPos;
use vstd::prelude::*;

verus! {

/// What the computer player does with its active troop.
#[derive(Debug, Clone, Copy, PartialEq, Eq, Structural)]
pub enum AiDecision {
    /// Attacks a target in reach now.
    Attack { target: BattleUnitPos },
    /// Steps to place `to`, then attacks.
    MoveAndAttack { to: usize, target: BattleUnitPos },
    /// Steps to place `to` without attacking.
    Move { to: usize },
    /// Passes the turn.
    Skip,
    /// Casts a spell.
    Cast { spell: usize, target: BattleUnitPos },
}

/// The computer player of a battle.
#[derive(Debug, Clone, Copy, PartialEq, Eq, Structural)]
pub struct BattleAi;

} // verus!
