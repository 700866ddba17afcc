//! Lifetimes of status effects.
use vstd::prelude::*;

verus! {

/// How long an effect lasts.
#[derive(Clone, Copy, Debug, PartialEq, Eq, Structural)]
pub struct EffectLifetime {
    /// Remaining life (`None`: forever).
    pub lifetime: Option<usize>,
    /// Life lost per tick.
    pub decay: usize,
    pub remove_on_battle_end: bool,
}

impl EffectLifetime {
    /// One tick: a limited effect loses `decay` of its life.
    pub fn tick(&mut self)
        requires
            old(self).lifetime matches Some(l) ==> l >= old(self).decay,
        ensures
            final(self).decay == old(self).decay,
            final(self).remove_on_battle_end == old(self).remove_on_battle_end,
            final(self).lifetime == match old(self).lifetime {
                Some(l) => Some((l - old(self).decay) as usize),
                None => None,
            },
    {
        match self.lifetime {
            Some(l) => {
                self.lifetime = Some(l - self.decay);
            },
            None => {},
        }
    }
}

impl Default for EffectLifetime {
    fn default() -> (r: Self)
        ensures
            r == (EffectLifetime { lifetime: None, decay: 0, remove_on_battle_end: false }),
    {
        EffectLifetime { lifetime: None, decay: 0, remove_on_battle_end: false }
    }
}

/// Where an effect comes from.
#[derive(Clone, Copy, Debug, PartialEq, Eq, Structural)]
pub enum EffectKind {
    MageCurse,
    MageSupport,
    Bonus,
    Item,
    Potion,
    Poison,
    Fire,
}

impl Default for EffectKind {
    fn default() -> (r: Self)
        ensures
            r == EffectKind::Bonus,
    {
        EffectKind::Bonus
    }
}

} // verus!
