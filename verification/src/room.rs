//! PvP rooms: configuration DTOs, the room registry (`RoomManager`) and the
//! room half of the client/server protocol.
use crate::registry::UnitId;
use crate::sorted::{insert_sorted_usize, remove_sorted, strictly_sorted, strictly_sorted_usize};
use crate::text::{copy_string, dec, is_blank, owned, push_dec, str_eq, trim, trim_str};
use std::collections::HashMap;
use vstd::prelude::*;

verus! {

broadcast use vstd::std_specs::hash::group_hash_axioms;

/// Identifier of a room (server counter).
pub type RoomId = u64;

#[derive(Clone, Copy, Debug, PartialEq, Eq, Structural)]
pub enum RoomMode {
    /// Plain battle between two players.
    Battle,
    /// A full game on a map.
    MapGame,
}

#[derive(Clone, Copy, Debug, PartialEq, Eq, Structural)]
pub enum RoomStatus {
    Lobby,
    InGame,
    Finished,
}

#[derive(Clone, Copy, Debug, PartialEq, Eq, Structural)]
pub enum SpectatorPolicy {
    Allowed,
    Forbidden,
}

/// Public information about an account.
#[derive(Clone, Debug, PartialEq, Eq)]
pub struct AccountBrief {
    pub display_name: String,
}

impl AccountBrief {
    pub fn new(name: &str) -> (r: Self)
        ensures
            r.display_name@ == name@,
    {
        AccountBrief { display_name: owned(name) }
    }
}

/// One row of the room table.
#[derive(Clone, Debug, PartialEq, Eq)]
pub struct PvpRoomSummary {
    pub id: RoomId,
    pub title: String,
    pub mode: RoomMode,
    pub map: Option<String>,
    pub rules_preset: Option<String>,
    pub rated: bool,
    pub players: u8,
    pub players_max: u8,
    pub spectators: u8,
    pub spectators_allowed: bool,
    pub status: RoomStatus,
    pub host: AccountBrief,
}

/// How an army's composition is limited.
#[derive(Clone, Copy, Debug, PartialEq, Eq, Structural)]
pub enum LimitKind {
    /// Sum of hire costs up to `gold_per_side`.
    Gold,
    /// Unit prices from `points_table` (default: hire cost).
    Points,
    /// No limit.
    NoLimit,
}

impl Default for LimitKind {
    fn default() -> (r: Self)
        ensures
            r == LimitKind::Gold,
    {
        LimitKind::Gold
    }
}

/// Game modification chosen for the room.
#[derive(Clone, Debug, PartialEq, Eq)]
pub enum GameModification {
    /// No modification.
    Plain,
    FogOfWarDraft,
    RandomIniBonus,
    MirrorMatch,
    BlindGold,
    Custom(String),
}

impl Default for GameModification {
    fn default() -> (r: Self)
        ensures
            r is Plain,
    {
        GameModification::Plain
    }
}

/// Spell rules: buying during setup and casting in battle.
#[derive(Clone, Copy, Debug, PartialEq, Eq, Structural)]
pub struct SpellRules {
    pub purchase: bool,
    pub use_in_battle: bool,
}

impl Default for SpellRules {
    fn default() -> (r: Self)
        ensures
            r.purchase && r.use_in_battle,
    {
        SpellRules { purchase: true, use_in_battle: true }
    }
}

/// Draft bans of both sides; a unit in either list is banned for both.
#[derive(Clone, Debug, PartialEq, Eq)]
pub struct DraftRules {
    pub bans: [Vec<UnitId>; 2],
}

impl Default for DraftRules {
    fn default() -> (r: Self)
        ensures
            r.bans[0]@.len() == 0,
            r.bans[1]@.len() == 0,
    {
        DraftRules { bans: [Vec::new(), Vec::new()] }
    }
}

/// Reinforcements bought during the battle.
#[derive(Clone, Copy, Debug, PartialEq, Eq, Structural)]
pub enum ReinforcementRules {
    Disabled,
    BuyOnly,
    FreeWave,
}

impl Default for ReinforcementRules {
    fn default() -> (r: Self)
        ensures
            r == ReinforcementRules::Disabled,
    {
        ReinforcementRules::Disabled
    }
}

/// Full room configuration (saved as a rules preset).
#[derive(Clone, Debug, PartialEq, Eq)]
pub struct RoomConfig {
    pub title: String,
    pub rated: bool,
    pub mode: RoomMode,
    pub spectators: SpectatorPolicy,
    pub rules_preset_id: Option<String>,
    pub map: Option<String>,
    pub gold_per_side: u64,
    pub allow_items: bool,
    pub allow_spells: SpellRules,
    pub game_modification: GameModification,
    pub draft: DraftRules,
    pub coin_flip_initiative: bool,
    pub max_units: Option<u8>,
    pub max_mages: Option<u8>,
    pub reinforcements: ReinforcementRules,
    pub banlist_units: Vec<UnitId>,
    pub banlist_items: Vec<usize>,
    pub limit_kind: LimitKind,
    pub points_table: Option<HashMap<UnitId, u64>>,
}

/// The views of an optional string.
pub open spec fn opt_view(o: Option<String>) -> Option<Seq<char>> {
    match o {
        Some(s) => Some(s@),
        None => None,
    }
}

/// The views of a sequence of strings.
pub open spec fn names(s: Seq<String>) -> Seq<Seq<char>> {
    s.map_values(|x: String| x@)
}

pub fn copy_opt_string(o: &Option<String>) -> (r: Option<String>)
    ensures
        opt_view(*o) == opt_view(r),
{
    match o {
        Some(s) => Some(copy_string(s)),
        None => None,
    }
}

pub fn copy_vec_usize(v: &Vec<usize>) -> (r: Vec<usize>)
    ensures
        r@ == v@,
{
    let mut r: Vec<usize> = Vec::new();
    let mut i: usize = 0;
    while i < v.len()
        invariant
            i <= v.len(),
            r@ == v@.subrange(0, i as int),
        decreases v.len() - i,
    {
        r.push(v[i]);
        i = i + 1;
        assert(r@ =~= v@.subrange(0, i as int));
    }
    assert(v@.subrange(0, v@.len() as int) =~= v@);
    r
}

pub fn copy_names(v: &Vec<String>) -> (r: Vec<String>)
    ensures
        names(r@) == names(v@),
{
    let mut r: Vec<String> = Vec::new();
    let mut i: usize = 0;
    while i < v.len()
        invariant
            i <= v.len(),
            r@.len() == i,
            names(r@) == names(v@.subrange(0, i as int)),
        decreases v.len() - i,
    {
        let s = copy_string(&v[i]);
        let ghost before = r@;
        r.push(s);
        i = i + 1;
        assert(names(r@) =~= names(v@.subrange(0, i as int))) by {
            assert(names(r@).len() == i);
            assert forall|k: int| 0 <= k < i implies names(r@)[k] == names(
                v@.subrange(0, i as int),
            )[k] by {
                if k < i - 1 {
                    assert(names(r@)[k] == names(before)[k]);
                    assert(names(before)[k] == names(v@.subrange(0, i - 1))[k]);
                }
            }
        }
    }
    assert(v@.subrange(0, v@.len() as int) =~= v@);
    r
}

/// Spec-level copy of `GameModification`.
pub enum GameModificationView {
    Plain,
    FogOfWarDraft,
    RandomIniBonus,
    MirrorMatch,
    BlindGold,
    Custom(Seq<char>),
}

/// Abstract value of a room configuration.
pub struct RoomConfigView {
    pub title: Seq<char>,
    pub rated: bool,
    pub mode: RoomMode,
    pub spectators: SpectatorPolicy,
    pub rules_preset_id: Option<Seq<char>>,
    pub map: Option<Seq<char>>,
    pub gold_per_side: u64,
    pub allow_items: bool,
    pub allow_spells: SpellRules,
    pub game_modification: GameModificationView,
    pub bans0: Seq<UnitId>,
    pub bans1: Seq<UnitId>,
    pub coin_flip_initiative: bool,
    pub max_units: Option<u8>,
    pub max_mages: Option<u8>,
    pub reinforcements: ReinforcementRules,
    pub banlist_units: Seq<UnitId>,
    pub banlist_items: Seq<usize>,
    pub limit_kind: LimitKind,
    pub points_table: Option<Map<UnitId, u64>>,
}

impl View for GameModification {
    type V = GameModificationView;

    open spec fn view(&self) -> GameModificationView {
        match self {
            GameModification::Plain => GameModificationView::Plain,
            GameModification::FogOfWarDraft => GameModificationView::FogOfWarDraft,
            GameModification::RandomIniBonus => GameModificationView::RandomIniBonus,
            GameModification::MirrorMatch => GameModificationView::MirrorMatch,
            GameModification::BlindGold => GameModificationView::BlindGold,
            GameModification::Custom(s) => GameModificationView::Custom(s@),
        }
    }
}

impl GameModification {
    pub fn copy(&self) -> (r: Self)
        ensures
            r@ == self@,
    {
        match self {
            GameModification::Plain => GameModification::Plain,
            GameModification::FogOfWarDraft => GameModification::FogOfWarDraft,
            GameModification::RandomIniBonus => GameModification::RandomIniBonus,
            GameModification::MirrorMatch => GameModification::MirrorMatch,
            GameModification::BlindGold => GameModification::BlindGold,
            GameModification::Custom(s) => GameModification::Custom(copy_string(s)),
        }
    }
}

impl View for RoomConfig {
    type V = RoomConfigView;

    open spec fn view(&self) -> RoomConfigView {
        RoomConfigView {
            title: self.title@,
            rated: self.rated,
            mode: self.mode,
            spectators: self.spectators,
            rules_preset_id: opt_view(self.rules_preset_id),
            map: opt_view(self.map),
            gold_per_side: self.gold_per_side,
            allow_items: self.allow_items,
            allow_spells: self.allow_spells,
            game_modification: self.game_modification@,
            bans0: self.draft.bans[0]@,
            bans1: self.draft.bans[1]@,
            coin_flip_initiative: self.coin_flip_initiative,
            max_units: self.max_units,
            max_mages: self.max_mages,
            reinforcements: self.reinforcements,
            banlist_units: self.banlist_units@,
            banlist_items: self.banlist_items@,
            limit_kind: self.limit_kind,
            points_table: match self.points_table {
                Some(t) => Some(t@),
                None => None,
            },
        }
    }
}

/// The room-title of a fresh configuration.
pub open spec fn default_title() -> Seq<char> {
    "Новая комната"@
}

impl Default for RoomConfig {
    fn default() -> (r: Self)
        ensures
            r.title@ == default_title(),
            !r.rated,
            r.mode == RoomMode::Battle,
            r.spectators == SpectatorPolicy::Allowed,
            r.rules_preset_id is None,
            r.map is None,
            r.gold_per_side == 1000,
            r.allow_items,
            r.allow_spells.purchase && r.allow_spells.use_in_battle,
            r.game_modification is Plain,
            r.draft.bans[0]@.len() == 0,
            r.draft.bans[1]@.len() == 0,
            !r.coin_flip_initiative,
            r.max_units is None,
            r.max_mages is None,
            r.reinforcements == ReinforcementRules::Disabled,
            r.banlist_units@.len() == 0,
            r.banlist_items@.len() == 0,
            r.limit_kind == LimitKind::Gold,
            r.points_table is None,
    {
        RoomConfig {
            title: String::from_str("Новая комната"),
            rated: false,
            mode: RoomMode::Battle,
            spectators: SpectatorPolicy::Allowed,
            rules_preset_id: None,
            map: None,
            gold_per_side: 1000,
            allow_items: true,
            allow_spells: SpellRules { purchase: true, use_in_battle: true },
            game_modification: GameModification::Plain,
            draft: DraftRules { bans: [Vec::new(), Vec::new()] },
            coin_flip_initiative: false,
            max_units: None,
            max_mages: None,
            reinforcements: ReinforcementRules::Disabled,
            banlist_units: Vec::new(),
            banlist_items: Vec::new(),
            limit_kind: LimitKind::Gold,
            points_table: None,
        }
    }
}

/// A rule broken by an army: the unit index (if local) and the text.
#[derive(Clone, Debug, PartialEq, Eq)]
pub struct RuleViolation {
    pub unit: Option<usize>,
    pub message: String,
}

pub open spec fn msg_empty_title() -> Seq<char> {
    "Название комнаты не может быть пустым"@
}

pub open spec fn msg_zero_gold() -> Seq<char> {
    "Бюджет (золото на сторону) должен быть больше нуля"@
}

pub open spec fn msg_no_points_table() -> Seq<char> {
    "Поинтовая система требует таблицу цен (points_table)"@
}

pub open spec fn msg_zero_units() -> Seq<char> {
    "Лимит юнитов должен быть больше нуля"@
}

pub open spec fn msg_ban_overlap() -> Seq<char> {
    "Один и тот же юнит не может быть забанен обеими сторонами"@
}

/// The first problem of a configuration, if any (checked in this order).
pub open spec fn config_problem(c: RoomConfigView) -> Option<Seq<char>> {
    if trim(c.title).len() == 0 {
        Some(msg_empty_title())
    } else if c.limit_kind == LimitKind::Gold && c.gold_per_side == 0 {
        Some(msg_zero_gold())
    } else if c.limit_kind == LimitKind::Points && c.points_table is None {
        Some(msg_no_points_table())
    } else if c.max_units == Some(0u8) {
        Some(msg_zero_units())
    } else if exists|i: int| 0 <= i < c.bans0.len() && c.bans1.contains(#[trigger] c.bans0[i]) {
        Some(msg_ban_overlap())
    } else {
        None
    }
}

/// Whether `v` holds `x`.
pub fn vec_contains_usize(v: &Vec<usize>, x: usize) -> (r: bool)
    ensures
        r == v@.contains(x),
{
    let mut i: usize = 0;
    while i < v.len()
        invariant
            i <= v.len(),
            forall|k: int| 0 <= k < i ==> v@[k] != x,
        decreases v.len() - i,
    {
        if v[i] == x {
            return true;
        }
        i = i + 1;
    }
    false
}

impl RoomConfig {
    /// Maximum number of players (a battle is for two; so is a map game for now).
    pub fn players_max(&self) -> (r: u8)
        ensures
            r == 2,
    {
        match self.mode {
            RoomMode::Battle => 2,
            RoomMode::MapGame => 2,
        }
    }

    /// All banned units: the banlist and both draft bans, sorted, each once.
    pub fn banned_units(&self) -> (r: Vec<UnitId>)
        ensures
            strictly_sorted_usize(r@),
            r@.to_set() == self.banlist_units@.to_set() + self.draft.bans[0]@.to_set()
                + self.draft.bans[1]@.to_set(),
    {
        let mut r: Vec<UnitId> = Vec::new();
        let ghost mut seen: Set<usize> = Set::empty();
        assert(r@.to_set() =~= Set::<usize>::empty());
        let mut i: usize = 0;
        while i < self.banlist_units.len()
            invariant
                i <= self.banlist_units.len(),
                strictly_sorted_usize(r@),
                r@.to_set() == self.banlist_units@.subrange(0, i as int).to_set(),
            decreases self.banlist_units.len() - i,
        {
            insert_sorted_usize(&mut r, self.banlist_units[i]);
            proof {
                assert(self.banlist_units@.subrange(0, i + 1) =~= self.banlist_units@.subrange(
                    0,
                    i as int,
                ).push(self.banlist_units@[i as int]));
                self.banlist_units@.subrange(0, i as int).lemma_push_to_set_commute(self.banlist_units@[i as int]);
            }
            i = i + 1;
        }
        assert(self.banlist_units@.subrange(0, i as int) =~= self.banlist_units@);
        let ghost s0 = r@.to_set();
        let mut j: usize = 0;
        while j < self.draft.bans[0].len()
            invariant
                j <= self.draft.bans[0].len(),
                strictly_sorted_usize(r@),
                r@.to_set() == s0 + self.draft.bans[0]@.subrange(0, j as int).to_set(),
            decreases self.draft.bans[0].len() - j,
        {
            insert_sorted_usize(&mut r, self.draft.bans[0][j]);
            proof {
                assert(self.draft.bans[0]@.subrange(0, j + 1) =~= self.draft.bans[0]@.subrange(
                    0,
                    j as int,
                ).push(self.draft.bans[0]@[j as int]));
                self.draft.bans[0]@.subrange(0, j as int).lemma_push_to_set_commute(self.draft.bans[0]@[j as int]);
                assert(r@.to_set() =~= s0 + self.draft.bans[0]@.subrange(0, j + 1).to_set());
            }
            j = j + 1;
        }
        assert(self.draft.bans[0]@.subrange(0, j as int) =~= self.draft.bans[0]@);
        let ghost s1 = r@.to_set();
        let mut k: usize = 0;
        while k < self.draft.bans[1].len()
            invariant
                k <= self.draft.bans[1].len(),
                strictly_sorted_usize(r@),
                r@.to_set() == s1 + self.draft.bans[1]@.subrange(0, k as int).to_set(),
            decreases self.draft.bans[1].len() - k,
        {
            insert_sorted_usize(&mut r, self.draft.bans[1][k]);
            proof {
                assert(self.draft.bans[1]@.subrange(0, k + 1) =~= self.draft.bans[1]@.subrange(
                    0,
                    k as int,
                ).push(self.draft.bans[1]@[k as int]));
                self.draft.bans[1]@.subrange(0, k as int).lemma_push_to_set_commute(self.draft.bans[1]@[k as int]);
                assert(r@.to_set() =~= s1 + self.draft.bans[1]@.subrange(0, k + 1).to_set());
            }
            k = k + 1;
        }
        assert(self.draft.bans[1]@.subrange(0, k as int) =~= self.draft.bans[1]@);
        r
    }

    /// Validates the configuration: `Err` with the first problem found.
    #[verifier::loop_isolation(false)]
    pub fn validate(&self) -> (r: Result<(), String>)
        ensures
            match config_problem(self@) {
                None => r is Ok,
                Some(m) => r matches Err(e) && e@ == m,
            },
    {
        if is_blank(self.title.as_str()) {
            return Err(String::from_str("Название комнаты не может быть пустым"));
        }
        match self.limit_kind {
            LimitKind::Gold => {
                if self.gold_per_side == 0 {
                    return Err(
                        String::from_str("Бюджет (золото на сторону) должен быть больше нуля"),
                    );
                }
            },
            LimitKind::Points => {
                if self.points_table.is_none() {
                    return Err(
                        String::from_str("Поинтовая система требует таблицу цен (points_table)"),
                    );
                }
            },
            LimitKind::NoLimit => {},
        }
        if self.max_units == Some(0u8) {
            return Err(String::from_str("Лимит юнитов должен быть больше нуля"));
        }
        let a = &self.draft.bans[0];
        let b = &self.draft.bans[1];
        let mut i: usize = 0;
        while i < a.len()
            invariant
                i <= a.len(),
                a@ == self.draft.bans[0]@,
                b@ == self.draft.bans[1]@,
                forall|k: int| 0 <= k < i ==> !b@.contains(#[trigger] a@[k]),
            decreases a.len() - i,
        {
            if vec_contains_usize(b, a[i]) {
                assert(self@.bans1.contains(self@.bans0[i as int]));
                return Err(
                    String::from_str("Один и тот же юнит не может быть забанен обеими сторонами"),
                );
            }
            i = i + 1;
        }
        Ok(())
    }

    /// A copy of the configuration.
    pub fn copy(&self) -> (r: Self)
        ensures
            r@ == self@,
    {
        RoomConfig {
            title: copy_string(&self.title),
            rated: self.rated,
            mode: self.mode,
            spectators: self.spectators,
            rules_preset_id: copy_opt_string(&self.rules_preset_id),
            map: copy_opt_string(&self.map),
            gold_per_side: self.gold_per_side,
            allow_items: self.allow_items,
            allow_spells: self.allow_spells,
            game_modification: self.game_modification.copy(),
            draft: DraftRules {
                bans: [copy_vec_usize(&self.draft.bans[0]), copy_vec_usize(&self.draft.bans[1])],
            },
            coin_flip_initiative: self.coin_flip_initiative,
            max_units: self.max_units,
            max_mages: self.max_mages,
            reinforcements: self.reinforcements,
            banlist_units: copy_vec_usize(&self.banlist_units),
            banlist_items: copy_vec_usize(&self.banlist_items),
            limit_kind: self.limit_kind,
            points_table: match &self.points_table {
                Some(t) => Some(t.clone()),
                None => None,
            },
        }
    }
}

} // verus!

verus! {

/// Abstract value of a room-table row.
pub struct SummaryView {
    pub id: RoomId,
    pub title: Seq<char>,
    pub mode: RoomMode,
    pub map: Option<Seq<char>>,
    pub rules_preset: Option<Seq<char>>,
    pub rated: bool,
    pub players: u8,
    pub players_max: u8,
    pub spectators: u8,
    pub spectators_allowed: bool,
    pub status: RoomStatus,
    pub host: Seq<char>,
}

impl View for PvpRoomSummary {
    type V = SummaryView;

    open spec fn view(&self) -> SummaryView {
        SummaryView {
            id: self.id,
            title: self.title@,
            mode: self.mode,
            map: opt_view(self.map),
            rules_preset: opt_view(self.rules_preset),
            rated: self.rated,
            players: self.players,
            players_max: self.players_max,
            spectators: self.spectators,
            spectators_allowed: self.spectators_allowed,
            status: self.status,
            host: self.host.display_name@,
        }
    }
}

impl PvpRoomSummary {
    /// A copy of the row.
    pub(crate) fn copy(&self) -> (r: Self)
        ensures
            r@ == self@,
    {
        PvpRoomSummary {
            id: self.id,
            title: copy_string(&self.title),
            mode: self.mode,
            map: copy_opt_string(&self.map),
            rules_preset: copy_opt_string(&self.rules_preset),
            rated: self.rated,
            players: self.players,
            players_max: self.players_max,
            spectators: self.spectators,
            spectators_allowed: self.spectators_allowed,
            status: self.status,
            host: AccountBrief::new(self.host.display_name.as_str()),
        }
    }
}

/// The whole room as seen by a member who just joined.
#[derive(Clone, Debug, PartialEq, Eq)]
pub struct RoomView {
    pub summary: PvpRoomSummary,
    pub config: RoomConfig,
    pub players: Vec<String>,
    pub spectators: Vec<String>,
}

/// Abstract value of a `RoomView`.
pub struct RoomViewView {
    pub summary: SummaryView,
    pub config: RoomConfigView,
    pub players: Seq<Seq<char>>,
    pub spectators: Seq<Seq<char>>,
}

impl View for RoomView {
    type V = RoomViewView;

    open spec fn view(&self) -> RoomViewView {
        RoomViewView {
            summary: self.summary@,
            config: self.config@,
            players: names(self.players@),
            spectators: names(self.spectators@),
        }
    }
}

/// Why a room operation was refused.
#[derive(Clone, Debug, PartialEq, Eq)]
pub enum RoomError {
    RoomNotFound,
    /// No free player slot.
    Full,
    SpectatorsForbidden,
    AlreadyInRoom,
    NotInRoom,
    /// Only the host may do this.
    NotHost,
    DuplicateName,
    EmptyName,
    InvalidConfig(String),
    /// The room is in another status.
    WrongStatus,
    /// Not enough players to start.
    NotEnoughPlayers,
}

/// The text shown to a user for an error.
pub open spec fn error_text(e: RoomError) -> Seq<char> {
    match e {
        RoomError::RoomNotFound => "Комната не найдена"@,
        RoomError::Full => "В комнате нет мест"@,
        RoomError::SpectatorsForbidden => "Наблюдатели запрещены в этой комнате"@,
        RoomError::AlreadyInRoom => "Вы уже в этой комнате"@,
        RoomError::NotInRoom => "Вы не состоите в этой комнате"@,
        RoomError::NotHost => "Только хост может это сделать"@,
        RoomError::DuplicateName => "Это имя уже занято в комнате"@,
        RoomError::EmptyName => "Введите имя игрока"@,
        RoomError::InvalidConfig(m) => "Некорректный конфиг: "@ + m@,
        RoomError::WrongStatus => "Комната в другом статусе"@,
        RoomError::NotEnoughPlayers => "Недостаточно игроков для старта"@,
    }
}

impl RoomError {
    /// The text shown to a user (what `Display` prints).
    pub fn message(&self) -> (r: String)
        ensures
            r@ == error_text(*self),
    {
        match self {
            RoomError::RoomNotFound => String::from_str("Комната не найдена"),
            RoomError::Full => String::from_str("В комнате нет мест"),
            RoomError::SpectatorsForbidden => String::from_str(
                "Наблюдатели запрещены в этой комнате",
            ),
            RoomError::AlreadyInRoom => String::from_str("Вы уже в этой комнате"),
            RoomError::NotInRoom => String::from_str("Вы не состоите в этой комнате"),
            RoomError::NotHost => String::from_str("Только хост может это сделать"),
            RoomError::DuplicateName => String::from_str("Это имя уже занято в комнате"),
            RoomError::EmptyName => String::from_str("Введите имя игрока"),
            RoomError::InvalidConfig(m) => {
                let mut s = String::from_str("Некорректный конфиг: ");
                s.append(m.as_str());
                s
            },
            RoomError::WrongStatus => String::from_str("Комната в другом статусе"),
            RoomError::NotEnoughPlayers => String::from_str("Недостаточно игроков для старта"),
        }
    }
}

/// A live room.
#[derive(Clone, Debug, PartialEq, Eq)]
pub struct Room {
    pub id: RoomId,
    pub config: RoomConfig,
    /// Name of the host (always one of the players while the room lives).
    pub host: String,
    pub players: Vec<String>,
    pub spectators: Vec<String>,
    pub status: RoomStatus,
}

/// Index of the first occurrence of `x` in `s`, or -1.
pub open spec fn find(s: Seq<Seq<char>>, x: Seq<char>) -> int
    decreases s.len(),
{
    if s.len() == 0 {
        -1
    } else if s[0] == x {
        0
    } else {
        let r = find(s.drop_first(), x);
        if r < 0 {
            -1
        } else {
            r + 1
        }
    }
}

pub proof fn lemma_find_at(s: Seq<Seq<char>>, x: Seq<char>, i: int)
    requires
        0 <= i <= s.len(),
        forall|k: int| 0 <= k < i ==> s[k] != x,
        i == s.len() || s[i] == x,
    ensures
        find(s, x) == (if i == s.len() { -1 } else { i }),
        find(s, x) < 0 <==> !s.contains(x),
    decreases i,
{
    if i > 0 {
        let t = s.drop_first();
        assert forall|k: int| 0 <= k < i - 1 implies t[k] != x by {
            assert(t[k] == s[k + 1]);
        }
        if i < s.len() {
            assert(t[i - 1] == s[i]);
        }
        lemma_find_at(t, x, i - 1);
    }
    if i == s.len() {
        assert forall|k: int| 0 <= k < s.len() implies s[k] != x by {}
    } else {
        assert(s.contains(x));
    }
}

/// Position of the first string whose characters are `name`.
pub fn position_of(v: &Vec<String>, name: &str) -> (r: Option<usize>)
    ensures
        match r {
            Some(i) => i < v@.len() && find(names(v@), name@) == i && names(v@)[i as int] == name@,
            None => find(names(v@), name@) == -1 && !names(v@).contains(name@),
        },
{
    let mut i: usize = 0;
    while i < v.len()
        invariant
            i <= v.len(),
            forall|k: int| 0 <= k < i ==> names(v@)[k] != name@,
        decreases v.len() - i,
    {
        if str_eq(v[i].as_str(), name) {
            proof {
                lemma_find_at(names(v@), name@, i as int);
            }
            return Some(i);
        }
        i = i + 1;
    }
    proof {
        lemma_find_at(names(v@), name@, i as int);
    }
    None
}

/// The row of the room table that shows `r`.
pub open spec fn summary_of(r: Room) -> SummaryView {
    SummaryView {
        id: r.id,
        title: r.config.title@,
        mode: r.config.mode,
        map: opt_view(r.config.map),
        rules_preset: opt_view(r.config.rules_preset_id),
        rated: r.config.rated,
        players: r.players@.len() as u8,
        players_max: 2,
        spectators: r.spectators@.len() as u8,
        spectators_allowed: r.config.spectators == SpectatorPolicy::Allowed,
        status: r.status,
        host: r.host@,
    }
}

/// The whole-room view of `r`.
pub open spec fn room_view_of(r: Room) -> RoomViewView {
    RoomViewView {
        summary: summary_of(r),
        config: r.config@,
        players: names(r.players@),
        spectators: names(r.spectators@),
    }
}

/// All members of a room: players, then spectators.
pub open spec fn members(r: Room) -> Seq<Seq<char>> {
    names(r.players@) + names(r.spectators@)
}

/// Invariant of a live room.
pub open spec fn room_wf(r: Room, id: RoomId) -> bool {
    &&& r.id == id
    &&& 1 <= r.players@.len() <= 2
    &&& names(r.players@).contains(r.host@)
    &&& members(r).no_duplicates()
}

impl Room {
    /// Whether a player or spectator of that name is in the room.
    pub fn is_member(&self, name: &str) -> (r: bool)
        ensures
            r == members(*self).contains(name@),
    {
        let p = position_of(&self.players, name);
        if p.is_some() {
            proof {
                let i = p->0 as int;
                assert(members(*self)[i] == name@);
            }
            return true;
        }
        let s = position_of(&self.spectators, name);
        if s.is_some() {
            proof {
                let i = s->0 as int;
                assert(members(*self)[names(self.players@).len() + i] == name@);
            }
            return true;
        }
        proof {
            if members(*self).contains(name@) {
                let k = choose|k: int| 0 <= k < members(*self).len() && members(*self)[k] == name@;
                if k < names(self.players@).len() {
                    assert(names(self.players@)[k] == name@);
                } else {
                    assert(names(self.spectators@)[k - names(self.players@).len()] == name@);
                }
            }
        }
        false
    }

    /// The room-table row of this room.
    pub fn summary_pub(&self) -> (r: PvpRoomSummary)
        ensures
            r@ == summary_of(*self),
    {
        PvpRoomSummary {
            id: self.id,
            title: copy_string(&self.config.title),
            mode: self.config.mode,
            map: copy_opt_string(&self.config.map),
            rules_preset: copy_opt_string(&self.config.rules_preset_id),
            rated: self.config.rated,
            players: self.players.len() as u8,
            players_max: self.config.players_max(),
            spectators: self.spectators.len() as u8,
            spectators_allowed: self.config.spectators == SpectatorPolicy::Allowed,
            status: self.status,
            host: AccountBrief::new(self.host.as_str()),
        }
    }

    fn room_view(&self) -> (r: RoomView)
        ensures
            r@ == room_view_of(*self),
    {
        RoomView {
            summary: self.summary_pub(),
            config: self.config.copy(),
            players: copy_names(&self.players),
            spectators: copy_names(&self.spectators),
        }
    }
}

} // verus!

verus! {

proof fn lemma_names_push(v: Seq<String>, x: String)
    ensures
        names(v.push(x)) == names(v).push(x@),
{
    assert(names(v.push(x)) =~= names(v).push(x@));
}

proof fn lemma_names_remove(v: Seq<String>, i: int)
    requires
        0 <= i < v.len(),
    ensures
        names(v.remove(i)) == names(v).remove(i),
{
    assert(names(v.remove(i)) =~= names(v).remove(i));
}

proof fn lemma_nodup_push(s: Seq<Seq<char>>, x: Seq<char>)
    requires
        s.no_duplicates(),
        !s.contains(x),
    ensures
        s.push(x).no_duplicates(),
{
    let t = s.push(x);
    assert forall|i: int, j: int| 0 <= i < t.len() && 0 <= j < t.len() && i != j implies t[i]
        != t[j] by {
        if i == s.len() {
            assert(t[j] == s[j]);
        } else if j == s.len() {
            assert(t[i] == s[i]);
        }
    }
}

proof fn lemma_nodup_sub(s: Seq<Seq<char>>, t: Seq<Seq<char>>, f: spec_fn(int) -> int)
    requires
        s.no_duplicates(),
        forall|i: int| 0 <= i < t.len() ==> 0 <= #[trigger] f(i) < s.len() && t[i] == s[f(i)],
        forall|i: int, j: int| 0 <= i < t.len() && 0 <= j < t.len() && i != j ==> #[trigger] f(i)
            != #[trigger] f(j),
    ensures
        t.no_duplicates(),
{
    assert forall|i: int, j: int| 0 <= i < t.len() && 0 <= j < t.len() && i != j implies t[i]
        != t[j] by {
        assert(f(i) != f(j));
    }
}

/// Members after a player joins.
proof fn lemma_members_push_player(r: Room, p: Seq<String>, x: String)
    requires
        p == r.players@.push(x),
    ensures
        names(p) + names(r.spectators@) == (members(r)).insert(names(r.players@).len() as int, x@),
{
    lemma_names_push(r.players@, x);
    assert(names(p) + names(r.spectators@) =~= (members(r)).insert(
        names(r.players@).len() as int,
        x@,
    ));
}

/// The registry of live rooms (one per server process).
#[derive(Debug)]
pub struct RoomManager {
    next_id: RoomId,
    rooms: HashMap<RoomId, Room>,
    /// Ids of the live rooms, increasing.
    order: Vec<RoomId>,
}

impl RoomManager {
    /// The live rooms by id.
    pub closed spec fn rooms_map(&self) -> Map<RoomId, Room> {
        self.rooms@
    }

    /// The id the next created room gets.
    pub closed spec fn next_room_id(&self) -> RoomId {
        self.next_id
    }

    /// The ids of the live rooms in increasing order.
    pub closed spec fn room_ids(&self) -> Seq<RoomId> {
        self.order@
    }

    /// The id the next created room gets.
    pub fn next_id(&self) -> (r: RoomId)
        ensures
            r == self.next_room_id(),
    {
        self.next_id
    }

    /// Invariant of the registry.
    pub closed spec fn wf(&self) -> bool {
        &&& forall|id: RoomId| #[trigger]
            self.rooms@.dom().contains(id) ==> room_wf(self.rooms@[id], id) && id < self.next_id
        &&& strictly_sorted(self.order@)
        &&& self.order@.to_set() == self.rooms@.dom()
    }

    /// In a valid registry every live room is well formed, its id is below the
    /// next id, and `room_ids` lists exactly the live rooms, increasing.
    pub proof fn lemma_wf(&self)
        requires
            self.wf(),
        ensures
            forall|id: RoomId| #[trigger]
                self.rooms_map().dom().contains(id) ==> room_wf(self.rooms_map()[id], id) && id
                    < self.next_room_id(),
            strictly_sorted(self.room_ids()),
            self.room_ids().to_set() == self.rooms_map().dom(),
    {
    }

    pub fn new() -> (r: Self)
        ensures
            r.wf(),
            r.rooms_map() == Map::<RoomId, Room>::empty(),
            r.next_room_id() == 0,
            r.room_ids().len() == 0,
    {
        let r = RoomManager { next_id: 0, rooms: HashMap::new(), order: Vec::new() };
        assert(r.order@.to_set() =~= Set::<RoomId>::empty());
        r
    }

    /// Creates a room hosted by `host` (trimmed); the host is its only player.
    pub fn create(&mut self, config: RoomConfig, host: &str) -> (r: Result<RoomId, RoomError>)
        requires
            old(self).wf(),
            old(self).next_room_id() < u64::MAX,
        ensures
            final(self).wf(),
            create_spec(*old(self), *final(self), config, host@, r),
    {
        let h = trim_str(host);
        proof {
            crate::text::lemma_trim_idempotent(host@);
        }
        if is_blank(h) {
            return Err(RoomError::EmptyName);
        }
        match config.validate() {
            Err(m) => {
                return Err(RoomError::InvalidConfig(m));
            },
            Ok(()) => {},
        }
        let id = self.next_id;
        self.next_id = self.next_id + 1;
        let mut players: Vec<String> = Vec::new();
        players.push(owned(h));
        let room = Room {
            id,
            config,
            host: owned(h),
            players,
            spectators: Vec::new(),
            status: RoomStatus::Lobby,
        };
        proof {
            assert(names(room.players@) =~= seq![h@]);
            assert(members(room) =~= seq![h@]);
            assert(names(room.players@)[0] == room.host@);
            assert(!self.rooms@.dom().contains(id)) by {
                if self.rooms@.dom().contains(id) {
                    assert(id < old(self).next_id);
                }
            }
        }
        self.rooms.insert(id, room);
        let ghost old_order = self.order@;
        self.order.push(id);
        proof {
            old_order.lemma_push_to_set_commute(id);
            assert forall|a: int, b: int| 0 <= a < b < self.order@.len() implies self.order@[a]
                < self.order@[b] by {
                if b == old_order.len() {
                    assert(old_order.to_set().contains(old_order[a]));
                    assert(old(self).rooms@.dom().contains(old_order[a]));
                }
            }
            assert forall|k: RoomId| #[trigger]
                self.rooms@.dom().contains(k) implies room_wf(self.rooms@[k], k) && k
                < self.next_id by {
                if k != id {
                    assert(old(self).rooms@.dom().contains(k));
                }
            }
        }
        Ok(id)
    }

    /// The rows of the room table, by increasing id.
    pub fn list(&self) -> (r: Vec<PvpRoomSummary>)
        requires
            self.wf(),
        ensures
            r@.len() == self.room_ids().len(),
            forall|i: int|
                0 <= i < r@.len() ==> #[trigger] r@[i]@ == summary_of(
                    self.rooms_map()[self.room_ids()[i]],
                ),
    {
        let mut r: Vec<PvpRoomSummary> = Vec::new();
        let mut i: usize = 0;
        while i < self.order.len()
            invariant
                self.wf(),
                i <= self.order.len(),
                r@.len() == i,
                forall|k: int|
                    0 <= k < i ==> #[trigger] r@[k]@ == summary_of(
                        self.rooms@[self.order@[k]],
                    ),
            decreases self.order.len() - i,
        {
            let id = self.order[i];
            assert(self.order@.to_set().contains(id));
            match self.rooms.get(&id) {
                Some(room) => {
                    r.push(room.summary_pub());
                },
                None => {
                    assert(false);
                },
            }
            i = i + 1;
        }
        r
    }

    /// The live room with that id.
    pub fn get(&self, id: RoomId) -> (r: Option<&Room>)
        ensures
            match r {
                Some(room) => self.rooms_map().dom().contains(id) && *room == self.rooms_map()[id],
                None => !self.rooms_map().dom().contains(id),
            },
    {
        self.rooms.get(&id)
    }

    /// The whole view of a live room.
    pub fn view(&self, id: RoomId) -> (r: Result<RoomView, RoomError>)
        ensures
            match r {
                Ok(v) => self.rooms_map().dom().contains(id) && v@ == room_view_of(
                    self.rooms_map()[id],
                ),
                Err(e) => !self.rooms_map().dom().contains(id) && e == RoomError::RoomNotFound,
            },
    {
        match self.rooms.get(&id) {
            Some(room) => Ok(room.room_view()),
            None => Err(RoomError::RoomNotFound),
        }
    }
}

} // verus!

verus! {

/// The error `join` answers with, if any (checked in this order).
pub open spec fn join_error(
    rooms: Map<RoomId, Room>,
    id: RoomId,
    n: Seq<char>,
    as_spectator: bool,
) -> Option<RoomError> {
    if n.len() == 0 {
        Some(RoomError::EmptyName)
    } else if !rooms.dom().contains(id) {
        Some(RoomError::RoomNotFound)
    } else {
        let room = rooms[id];
        if room.status == RoomStatus::Finished {
            Some(RoomError::WrongStatus)
        } else if members(room).contains(n) {
            Some(RoomError::AlreadyInRoom)
        } else if as_spectator {
            if room.config.spectators == SpectatorPolicy::Forbidden {
                Some(RoomError::SpectatorsForbidden)
            } else {
                None
            }
        } else if room.status != RoomStatus::Lobby {
            Some(RoomError::WrongStatus)
        } else if room.players@.len() >= 2 {
            Some(RoomError::Full)
        } else {
            None
        }
    }
}

/// `b` is `a` with other members (everything else equal).
pub open spec fn same_but_members(a: Room, b: Room) -> bool {
    &&& a.id == b.id
    &&& a.config == b.config
    &&& a.status == b.status
}

proof fn lemma_contains_after_remove(v: Seq<String>, p: int, x: Seq<char>)
    requires
        0 <= p < v.len(),
        names(v).contains(x),
        names(v)[p] != x,
    ensures
        names(v.remove(p)).contains(x),
{
    lemma_names_remove(v, p);
    let j = choose|j: int| 0 <= j < names(v).len() && names(v)[j] == x;
    if j < p {
        assert(names(v).remove(p)[j] == x);
    } else {
        assert(names(v).remove(p)[j - 1] == x);
    }
}

proof fn lemma_members_remove_player(r: Room, p: int, np: Seq<String>)
    requires
        0 <= p < r.players@.len(),
        np == r.players@.remove(p),
        members(r).no_duplicates(),
    ensures
        (names(np) + names(r.spectators@)).no_duplicates(),
{
    lemma_names_remove(r.players@, p);
    let t = names(np) + names(r.spectators@);
    let f = |i: int| if i < p { i } else { i + 1 };
    assert forall|i: int| 0 <= i < t.len() implies 0 <= #[trigger] f(i) < members(r).len() && t[i]
        == members(r)[f(i)] by {}
    lemma_nodup_sub(members(r), t, f);
}

proof fn lemma_members_remove_spectator(r: Room, s: int, ns: Seq<String>)
    requires
        0 <= s < r.spectators@.len(),
        ns == r.spectators@.remove(s),
        members(r).no_duplicates(),
    ensures
        (names(r.players@) + names(ns)).no_duplicates(),
{
    lemma_names_remove(r.spectators@, s);
    let t = names(r.players@) + names(ns);
    let q = r.players@.len() + s;
    let f = |i: int| if i < q { i } else { i + 1 };
    assert forall|i: int| 0 <= i < t.len() implies 0 <= #[trigger] f(i) < members(r).len() && t[i]
        == members(r)[f(i)] by {}
    lemma_nodup_sub(members(r), t, f);
}

/// The outcome of `RoomManager::create`: how the registry changes and what it answers.
pub open spec fn create_spec(old: RoomManager, new: RoomManager, config: RoomConfig, host: Seq<char>, r: Result<RoomId, RoomError>) -> bool {
    &&& (trim(host).len() == 0 ==> r == Err::<RoomId, RoomError>(RoomError::EmptyName)
        && new == old)
    &&& (trim(host).len() > 0 && config_problem(config@) is Some ==> {
        &&& new == old
        &&& r matches Err(RoomError::InvalidConfig(m)) && m@ == config_problem(config@)->0
    })
    &&& (trim(host).len() > 0 && config_problem(config@) is None ==> {
        let id = old.next_room_id();
        let room = new.rooms_map()[id];
        &&& r == Ok::<RoomId, RoomError>(id)
        &&& new.next_room_id() == id + 1
        &&& !old.rooms_map().dom().contains(id)
        &&& new.rooms_map() == old.rooms_map().insert(id, room)
        &&& room.id == id
        &&& room.config == config
        &&& room.host@ == trim(host)
        &&& names(room.players@) == seq![trim(host)]
        &&& room.spectators@.len() == 0
        &&& room.status == RoomStatus::Lobby
    })
}

/// The outcome of `RoomManager::join`: how the registry changes and what it answers.
pub open spec fn join_spec(old: RoomManager, new: RoomManager, id: RoomId, name: Seq<char>, as_spectator: bool, r: Result<RoomView, RoomError>) -> bool {
    &&& (match join_error(old.rooms_map(), id, trim(name), as_spectator) {
        Some(e) => r == Err::<RoomView, RoomError>(e) && new == old,
        None => {
            let room = old.rooms_map()[id];
            let nr = new.rooms_map()[id];
            &&& new.rooms_map() == old.rooms_map().insert(id, nr)
            &&& new.next_room_id() == old.next_room_id()
            &&& new.room_ids() == old.room_ids()
            &&& same_but_members(room, nr)
            &&& nr.host == room.host
            &&& if as_spectator {
                &&& nr.players == room.players
                &&& names(nr.spectators@) == names(room.spectators@).push(trim(name))
            } else {
                &&& nr.spectators == room.spectators
                &&& names(nr.players@) == names(room.players@).push(trim(name))
            }
            &&& r matches Ok(v) && v@ == room_view_of(nr)
        },
    })
}

/// The outcome of `RoomManager::leave`: how the registry changes and what it answers.
pub open spec fn leave_spec(old: RoomManager, new: RoomManager, id: RoomId, name: Seq<char>, r: Result<Option<PvpRoomSummary>, RoomError>) -> bool {
    &&& (new.next_room_id() == old.next_room_id())
    &&& (!old.rooms_map().dom().contains(id) ==> r == Err::<Option<PvpRoomSummary>, RoomError>(
        RoomError::RoomNotFound,
    ) && new == old)
    &&& (old.rooms_map().dom().contains(id) ==> {
        let room = old.rooms_map()[id];
        let p = find(names(room.players@), name);
        let s = find(names(room.spectators@), name);
        let nr = new.rooms_map()[id];
        if p >= 0 {
            let np = room.players@.remove(p);
            if np.len() == 0 {
                &&& r == Ok::<Option<PvpRoomSummary>, RoomError>(None)
                &&& new.rooms_map() == old.rooms_map().remove(id)
                &&& new.room_ids().to_set() == old.room_ids().to_set().remove(id)
            } else {
                &&& new.rooms_map() == old.rooms_map().insert(id, nr)
                &&& new.room_ids() == old.room_ids()
                &&& same_but_members(room, nr)
                &&& nr.players@ == np
                &&& nr.spectators == room.spectators
                &&& nr.host@ == (if room.host@ == name { np[0]@ } else { room.host@ })
                &&& r matches Ok(Some(sm)) && sm@ == summary_of(nr)
            }
        } else if s >= 0 {
            &&& new.rooms_map() == old.rooms_map().insert(id, nr)
            &&& new.room_ids() == old.room_ids()
            &&& same_but_members(room, nr)
            &&& nr.players == room.players
            &&& nr.host == room.host
            &&& nr.spectators@ == room.spectators@.remove(s)
            &&& r matches Ok(Some(sm)) && sm@ == summary_of(nr)
        } else {
            &&& r == Err::<Option<PvpRoomSummary>, RoomError>(RoomError::NotInRoom)
            &&& new == old
        }
    })
}

/// The outcome of `RoomManager::kick`: how the registry changes and what it answers.
pub open spec fn kick_spec(old: RoomManager, new: RoomManager, id: RoomId, by: Seq<char>, member: Seq<char>, r: Result<PvpRoomSummary, RoomError>) -> bool {
    &&& (new.next_room_id() == old.next_room_id())
    &&& (new.room_ids() == old.room_ids())
    &&& (!old.rooms_map().dom().contains(id) ==> r == Err::<PvpRoomSummary, RoomError>(
        RoomError::RoomNotFound,
    ) && new == old)
    &&& (old.rooms_map().dom().contains(id) ==> {
        let room = old.rooms_map()[id];
        let p = find(names(room.players@), member);
        let s = find(names(room.spectators@), member);
        let nr = new.rooms_map()[id];
        if room.host@ != by {
            r == Err::<PvpRoomSummary, RoomError>(RoomError::NotHost) && new
                == old
        } else if member == by || (p < 0 && s < 0) {
            r == Err::<PvpRoomSummary, RoomError>(RoomError::NotInRoom) && new
                == old
        } else {
            &&& new.rooms_map() == old.rooms_map().insert(id, nr)
            &&& same_but_members(room, nr)
            &&& nr.host == room.host
            &&& if p >= 0 {
                nr.players@ == room.players@.remove(p) && nr.spectators == room.spectators
            } else {
                nr.players == room.players && nr.spectators@ == room.spectators@.remove(s)
            }
            &&& r matches Ok(sm) && sm@ == summary_of(nr)
        }
    })
}

/// The outcome of `RoomManager::start`: how the registry changes and what it answers.
pub open spec fn start_spec(old: RoomManager, new: RoomManager, id: RoomId, by: Seq<char>, r: Result<(), RoomError>) -> bool {
    &&& (new.next_room_id() == old.next_room_id())
    &&& (new.room_ids() == old.room_ids())
    &&& (!old.rooms_map().dom().contains(id) ==> r == Err::<(), RoomError>(
        RoomError::RoomNotFound,
    ) && new == old)
    &&& (old.rooms_map().dom().contains(id) ==> {
        let room = old.rooms_map()[id];
        if room.host@ != by {
            r == Err::<(), RoomError>(RoomError::NotHost) && new == old
        } else if room.status != RoomStatus::Lobby {
            r == Err::<(), RoomError>(RoomError::WrongStatus) && new == old
        } else if room.players@.len() < 2 {
            r == Err::<(), RoomError>(RoomError::NotEnoughPlayers) && new
                == old
        } else {
            &&& r == Ok::<(), RoomError>(())
            &&& new.rooms_map() == old.rooms_map().insert(
                id,
                Room { status: RoomStatus::InGame, ..room },
            )
        }
    })
}

impl RoomManager {
    fn take_room(&mut self, id: RoomId) -> (r: Room)
        requires
            old(self).rooms@.dom().contains(id),
        ensures
            r == old(self).rooms@[id],
            final(self).rooms@ == old(self).rooms@.remove(id),
            final(self).next_id == old(self).next_id,
            final(self).order == old(self).order,
    {
        match self.rooms.remove(&id) {
            Some(room) => room,
            None => vstd::pervasive::unreached(),
        }
    }

    proof fn lemma_put_back(old_m: &Self, new_m: &Self, id: RoomId, room: Room)
        requires
            old_m.wf(),
            old_m.rooms@.dom().contains(id),
            new_m.rooms@ == old_m.rooms@.insert(id, room),
            new_m.next_id == old_m.next_id,
            new_m.order == old_m.order,
            room_wf(room, id),
        ensures
            new_m.wf(),
    {
        assert(new_m.rooms@.dom() =~= old_m.rooms@.dom());
        assert forall|k: RoomId| #[trigger]
            new_m.rooms@.dom().contains(k) implies room_wf(new_m.rooms@[k], k) && k
            < new_m.next_id by {
            assert(old_m.rooms@.dom().contains(k));
        }
    }

    /// Adds `name` (trimmed) to a room as a player or a spectator.
    pub fn join(&mut self, id: RoomId, name: &str, as_spectator: bool) -> (r: Result<
        RoomView,
        RoomError,
    >)
        requires
            old(self).wf(),
        ensures
            final(self).wf(),
            join_spec(*old(self), *final(self), id, name@, as_spectator, r),
    {
        let n = trim_str(name);
        if is_blank(n) {
            proof {
                crate::text::lemma_trim_idempotent(name@);
            }
            return Err(RoomError::EmptyName);
        }
        proof {
            crate::text::lemma_trim_idempotent(name@);
        }
        let ghost old_self = *self;
        let room_ref = match self.rooms.get(&id) {
            Some(room) => room,
            None => {
                return Err(RoomError::RoomNotFound);
            },
        };
        if room_ref.status == RoomStatus::Finished {
            return Err(RoomError::WrongStatus);
        }
        if room_ref.is_member(n) {
            return Err(RoomError::AlreadyInRoom);
        }
        if as_spectator {
            if room_ref.config.spectators == SpectatorPolicy::Forbidden {
                return Err(RoomError::SpectatorsForbidden);
            }
        } else {
            if room_ref.status != RoomStatus::Lobby {
                return Err(RoomError::WrongStatus);
            }
            if room_ref.players.len() >= room_ref.config.players_max() as usize {
                return Err(RoomError::Full);
            }
        }
        let mut room = self.take_room(id);
        let ghost old_room = room;
        let who = owned(n);
        if as_spectator {
            room.spectators.push(who);
            proof {
                lemma_names_push(old_room.spectators@, who);
                assert(members(room) =~= members(old_room).push(n@));
                lemma_nodup_push(members(old_room), n@);
            }
        } else {
            room.players.push(who);
            proof {
                lemma_names_push(old_room.players@, who);
                lemma_members_push_player(old_room, room.players@, who);
                assert(members(room) == members(old_room).insert(
                    names(old_room.players@).len() as int,
                    n@,
                ));
                let m = members(old_room);
                let q = names(old_room.players@).len() as int;
                let t = members(room);
                assert forall|i: int, j: int|
                    0 <= i < t.len() && 0 <= j < t.len() && i != j implies t[i] != t[j] by {
                    if i == q {
                        if j < q {
                            assert(t[j] == m[j]);
                        } else {
                            assert(t[j] == m[j - 1]);
                        }
                        assert(m.contains(m[if j < q { j } else { j - 1 }]));
                    } else if j == q {
                        if i < q {
                            assert(t[i] == m[i]);
                        } else {
                            assert(t[i] == m[i - 1]);
                        }
                        assert(m.contains(m[if i < q { i } else { i - 1 }]));
                    } else {
                        let a = if i < q { i } else { i - 1 };
                        let b = if j < q { j } else { j - 1 };
                        assert(t[i] == m[a]);
                        assert(t[j] == m[b]);
                    }
                }
                let k = choose|k: int|
                    0 <= k < names(old_room.players@).len() && names(old_room.players@)[k]
                        == old_room.host@;
                assert(names(room.players@)[k] == old_room.host@);
            }
        }
        let v = room.room_view();
        self.rooms.insert(id, room);
        proof {
            assert(self.rooms@ =~= old_self.rooms@.insert(id, room));
            Self::lemma_put_back(&old_self, self, id, room);
        }
        Ok(v)
    }
}

} // verus!

verus! {

impl RoomManager {
    /// Leaves a room. When its last player leaves the room closes (`Ok(None)`);
    /// when the host leaves, the next player becomes host.
    pub fn leave(&mut self, id: RoomId, name: &str) -> (r: Result<
        Option<PvpRoomSummary>,
        RoomError,
    >)
        requires
            old(self).wf(),
        ensures
            final(self).wf(),
            leave_spec(*old(self), *final(self), id, name@, r),
    {
        let ghost old_self = *self;
        let room_ref = match self.rooms.get(&id) {
            Some(room) => room,
            None => {
                return Err(RoomError::RoomNotFound);
            },
        };
        let p = position_of(&room_ref.players, name);
        let s = position_of(&room_ref.spectators, name);
        if p.is_none() && s.is_none() {
            return Err(RoomError::NotInRoom);
        }
        let mut room = self.take_room(id);
        let ghost old_room = room;
        match p {
            Some(pos) => {
                room.players.remove(pos);
                if room.players.len() == 0 {
                    remove_sorted(&mut self.order, id);
                    proof {
                        assert(self.rooms@ =~= old_self.rooms@.remove(id));
                        assert forall|k: RoomId| #[trigger]
                            self.rooms@.dom().contains(k) implies room_wf(self.rooms@[k], k) && k
                            < self.next_id by {
                            assert(old_self.rooms@.dom().contains(k));
                        }
                    }
                    return Ok(None);
                }
                proof {
                    lemma_members_remove_player(old_room, pos as int, room.players@);
                }
                if str_eq(room.host.as_str(), name) {
                    room.host = copy_string(&room.players[0]);
                    proof {
                        lemma_names_remove(old_room.players@, pos as int);
                        assert(names(room.players@)[0] == room.host@);
                    }
                } else {
                    proof {
                        lemma_contains_after_remove(old_room.players@, pos as int, old_room.host@);
                    }
                }
            },
            None => {
                let sp = s.unwrap();
                room.spectators.remove(sp);
                proof {
                    lemma_members_remove_spectator(old_room, sp as int, room.spectators@);
                }
            },
        }
        let sm = room.summary_pub();
        self.rooms.insert(id, room);
        proof {
            assert(self.rooms@ =~= old_self.rooms@.insert(id, room));
            Self::lemma_put_back(&old_self, self, id, room);
        }
        Ok(Some(sm))
    }

    /// The host removes another member (player or spectator).
    pub fn kick(&mut self, id: RoomId, by: &str, member: &str) -> (r: Result<
        PvpRoomSummary,
        RoomError,
    >)
        requires
            old(self).wf(),
        ensures
            final(self).wf(),
            kick_spec(*old(self), *final(self), id, by@, member@, r),
    {
        let ghost old_self = *self;
        let room_ref = match self.rooms.get(&id) {
            Some(room) => room,
            None => {
                return Err(RoomError::RoomNotFound);
            },
        };
        if !str_eq(room_ref.host.as_str(), by) {
            return Err(RoomError::NotHost);
        }
        if str_eq(member, by) {
            return Err(RoomError::NotInRoom);
        }
        let p = position_of(&room_ref.players, member);
        let s = position_of(&room_ref.spectators, member);
        if p.is_none() && s.is_none() {
            return Err(RoomError::NotInRoom);
        }
        let mut room = self.take_room(id);
        let ghost old_room = room;
        match p {
            Some(pos) => {
                proof {
                    let k = choose|k: int|
                        0 <= k < names(old_room.players@).len() && names(old_room.players@)[k]
                            == old_room.host@;
                    assert(k != pos);
                    lemma_contains_after_remove(old_room.players@, pos as int, old_room.host@);
                }
                room.players.remove(pos);
                proof {
                    lemma_members_remove_player(old_room, pos as int, room.players@);
                }
            },
            None => {
                let sp = s.unwrap();
                room.spectators.remove(sp);
                proof {
                    lemma_members_remove_spectator(old_room, sp as int, room.spectators@);
                }
            },
        }
        let sm = room.summary_pub();
        self.rooms.insert(id, room);
        proof {
            assert(self.rooms@ =~= old_self.rooms@.insert(id, room));
            Self::lemma_put_back(&old_self, self, id, room);
        }
        Ok(sm)
    }

    /// The host starts the battle: `Lobby` becomes `InGame`.
    pub fn start(&mut self, id: RoomId, by: &str) -> (r: Result<(), RoomError>)
        requires
            old(self).wf(),
        ensures
            final(self).wf(),
            start_spec(*old(self), *final(self), id, by@, r),
    {
        let ghost old_self = *self;
        let room_ref = match self.rooms.get(&id) {
            Some(room) => room,
            None => {
                return Err(RoomError::RoomNotFound);
            },
        };
        if !str_eq(room_ref.host.as_str(), by) {
            return Err(RoomError::NotHost);
        }
        if room_ref.status != RoomStatus::Lobby {
            return Err(RoomError::WrongStatus);
        }
        let needed: usize = match room_ref.config.mode {
            RoomMode::Battle => room_ref.config.players_max() as usize,
            RoomMode::MapGame => 2,
        };
        if room_ref.players.len() < needed {
            return Err(RoomError::NotEnoughPlayers);
        }
        let mut room = self.take_room(id);
        room.status = RoomStatus::InGame;
        self.rooms.insert(id, room);
        proof {
            assert(self.rooms@ =~= old_self.rooms@.insert(id, room));
            Self::lemma_put_back(&old_self, self, id, room);
        }
        Ok(())
    }
}

} // verus!

verus! {

/// The room half of the client protocol.
#[derive(Clone, Debug, PartialEq, Eq)]
pub enum ClientRoomMsg {
    /// First message after connecting: the session's name.
    Hello { name: String },
    ListRooms { open_only: bool },
    CreateRoom(RoomConfig),
    JoinRoom { room: RoomId, as_spectator: bool },
    LeaveRoom,
    /// Host only.
    StartBattle,
    Kick { member: String },
    /// Room chat; the server fills in the sender.
    Chat { text: String },
}

/// One line of a room's chat (`at` in unix seconds).
#[derive(Clone, Debug, PartialEq, Eq)]
pub struct ChatMsg {
    pub from: String,
    pub text: String,
    pub at: u64,
    pub system: bool,
}

/// Abstract value of a chat line.
pub struct ChatView {
    pub from: Seq<char>,
    pub text: Seq<char>,
    pub at: u64,
    pub system: bool,
}

impl View for ChatMsg {
    type V = ChatView;

    open spec fn view(&self) -> ChatView {
        ChatView { from: self.from@, text: self.text@, at: self.at, system: self.system }
    }
}

/// The views of a list of chat lines.
pub open spec fn chat_views(s: Seq<ChatMsg>) -> Seq<ChatView> {
    s.map_values(|m: ChatMsg| m@)
}

/// The views of a list of room-table rows.
pub open spec fn summary_views(s: Seq<PvpRoomSummary>) -> Seq<SummaryView> {
    s.map_values(|m: PvpRoomSummary| m@)
}

/// The room half of the server protocol.
#[derive(Clone, Debug, PartialEq, Eq)]
pub enum ServerRoomMsg {
    /// Answer to `Hello`: the accepted (made unique) name.
    Welcome { name: String },
    RoomList(Vec<PvpRoomSummary>),
    RoomCreated(RoomId),
    JoinedRoom(RoomView),
    JoinRejected { reason: String },
    /// `None`: the room closed.
    LeftRoom(Option<PvpRoomSummary>),
    RoomUpdate(PvpRoomSummary),
    RoomClosed(RoomId),
    /// Battle start: your side (0 or 1) and the shared initiative seed.
    Started { your_army: usize, ini_seed: u64 },
    Kicked(String),
    /// Chat history sent on entering a room.
    ChatHistory(Vec<ChatMsg>),
    ChatMsg(ChatMsg),
    Error { message: String },
}

/// Abstract value of a server message.
pub enum ServerMsgView {
    Welcome { name: Seq<char> },
    RoomList(Seq<SummaryView>),
    RoomCreated(RoomId),
    JoinedRoom(RoomViewView),
    JoinRejected { reason: Seq<char> },
    LeftRoom(Option<SummaryView>),
    RoomUpdate(SummaryView),
    RoomClosed(RoomId),
    Started { your_army: usize, ini_seed: u64 },
    Kicked(Seq<char>),
    ChatHistory(Seq<ChatView>),
    ChatMsg(ChatView),
    Error { message: Seq<char> },
}

impl View for ServerRoomMsg {
    type V = ServerMsgView;

    open spec fn view(&self) -> ServerMsgView {
        match self {
            ServerRoomMsg::Welcome { name } => ServerMsgView::Welcome { name: name@ },
            ServerRoomMsg::RoomList(v) => ServerMsgView::RoomList(summary_views(v@)),
            ServerRoomMsg::RoomCreated(id) => ServerMsgView::RoomCreated(*id),
            ServerRoomMsg::JoinedRoom(v) => ServerMsgView::JoinedRoom(v@),
            ServerRoomMsg::JoinRejected { reason } => ServerMsgView::JoinRejected {
                reason: reason@,
            },
            ServerRoomMsg::LeftRoom(o) => ServerMsgView::LeftRoom(
                match o {
                    Some(x) => Some(x@),
                    None => None,
                },
            ),
            ServerRoomMsg::RoomUpdate(x) => ServerMsgView::RoomUpdate(x@),
            ServerRoomMsg::RoomClosed(id) => ServerMsgView::RoomClosed(*id),
            ServerRoomMsg::Started { your_army, ini_seed } => ServerMsgView::Started {
                your_army: *your_army,
                ini_seed: *ini_seed,
            },
            ServerRoomMsg::Kicked(s) => ServerMsgView::Kicked(s@),
            ServerRoomMsg::ChatHistory(v) => ServerMsgView::ChatHistory(chat_views(v@)),
            ServerRoomMsg::ChatMsg(m) => ServerMsgView::ChatMsg(m@),
            ServerRoomMsg::Error { message } => ServerMsgView::Error { message: message@ },
        }
    }
}

/// The system clock.
#[verifier::external_type_specification]
#[verifier::external_body]
pub struct ExSystemTime(std::time::SystemTime);

/// The error of a clock reading before the unix epoch.
#[verifier::external_type_specification]
#[verifier::external_body]
pub struct ExSystemTimeError(std::time::SystemTimeError);

/// `SystemTime::now`: the current time (nothing is promised of it).
#[verifier::external_body]
fn system_now() -> std::time::SystemTime {
    std::time::SystemTime::now()
}

/// `SystemTime::duration_since(UNIX_EPOCH)`: the time since the unix epoch,
/// or an error if `t` is before it (nothing more is promised).
#[verifier::external_body]
fn since_unix_epoch(t: &std::time::SystemTime) -> std::result::Result<core::time::Duration, std::time::SystemTimeError> {
    t.duration_since(std::time::UNIX_EPOCH)
}

/// `Duration::as_secs`: whole seconds of a duration (nothing is promised
/// of the value).
#[verifier::external_body]
fn whole_secs(d: &core::time::Duration) -> u64 {
    d.as_secs()
}

/// Seconds since the unix epoch (0 if the clock is before it).
pub fn now_unix() -> u64 {
    let now = system_now();
    match since_unix_epoch(&now) {
        Ok(d) => whole_secs(&d),
        Err(_) => 0,
    }
}

impl ChatMsg {
    /// A line written by `from`, stamped with the time `now`.
    pub fn user_at(from: &str, text: &str, now: u64) -> (r: Self)
        ensures
            r.from@ == from@,
            r.text@ == text@,
            r.at == now,
            !r.system,
    {
        ChatMsg { from: owned(from), text: owned(text), at: now, system: false }
    }

    /// A system line (empty sender), stamped with the time `now`.
    pub fn system_at(text: &str, now: u64) -> (r: Self)
        ensures
            r.from@.len() == 0,
            r.text@ == text@,
            r.at == now,
            r.system,
    {
        ChatMsg { from: String::new(), text: owned(text), at: now, system: true }
    }

    /// A line written by `from`, stamped with the current time (see
    /// `user_at`; the clock reading is not stated).
    pub fn user(from: &str, text: &str) -> (r: Self)
        ensures
            r.from@ == from@,
            r.text@ == text@,
            !r.system,
    {
        ChatMsg::user_at(from, text, now_unix())
    }

    /// A system line (empty sender), stamped with the current time (see
    /// `system_at`; the clock reading is not stated).
    pub fn system(text: &str) -> (r: Self)
        ensures
            r.from@.len() == 0,
            r.text@ == text@,
            r.system,
    {
        ChatMsg::system_at(text, now_unix())
    }
}

/// What the army check reads of a troop: its unit, whether the unit is a
/// mage and its hire cost.
#[derive(Clone, Copy, Debug, PartialEq, Eq, Structural)]
pub struct TroopBrief {
    pub unit_id: UnitId,
    pub is_mage: bool,
    pub cost_hire: u64,
}

/// The price of a troop against the room's limit: its hire cost for a gold
/// limit; its entry in the points table (else its hire cost) for a points
/// limit; nothing without a limit.
pub open spec fn troop_price(c: RoomConfigView, t: TroopBrief) -> nat {
    match c.limit_kind {
        LimitKind::Gold => t.cost_hire as nat,
        LimitKind::Points => match c.points_table {
            Some(m) => if m.contains_key(t.unit_id) {
                m[t.unit_id] as nat
            } else {
                t.cost_hire as nat
            },
            None => t.cost_hire as nat,
        },
        LimitKind::NoLimit => 0,
    }
}

/// The price of an army.
pub open spec fn army_spent(c: RoomConfigView, ts: Seq<TroopBrief>) -> nat
    decreases ts.len(),
{
    if ts.len() == 0 {
        0
    } else {
        army_spent(c, ts.drop_last()) + troop_price(c, ts.last())
    }
}

/// The number of mages of an army.
pub open spec fn army_mages(ts: Seq<TroopBrief>) -> nat
    decreases ts.len(),
{
    if ts.len() == 0 {
        0
    } else {
        army_mages(ts.drop_last()) + if ts.last().is_mage {
            1nat
        } else {
            0nat
        }
    }
}

/// The units banned by a configuration: its banlist and both draft bans.
pub open spec fn banned_set(c: RoomConfigView) -> Set<UnitId> {
    c.banlist_units.to_set() + c.bans0.to_set() + c.bans1.to_set()
}

pub open spec fn msg_banned_unit(id: UnitId) -> Seq<char> {
    "Юнит "@ + dec(id as nat) + " запрещён правилами комнаты"@
}

pub open spec fn msg_too_many_units(n: nat, max: u8) -> Seq<char> {
    "Слишком много юнитов: "@ + dec(n) + " (лимит "@ + dec(max as nat) + ")"@
}

pub open spec fn msg_too_many_mages(n: nat, max: u8) -> Seq<char> {
    "Слишком много магов: "@ + dec(n) + " (лимит "@ + dec(max as nat) + ")"@
}

pub open spec fn msg_over_gold(spent: nat, gold: u64) -> Seq<char> {
    "Превышен бюджет: "@ + dec(spent) + " из "@ + dec(gold as nat) + " золота"@
}

pub open spec fn msg_over_points(spent: nat, gold: u64) -> Seq<char> {
    "Превышен лимит поинтов: "@ + dec(spent) + " из "@ + dec(gold as nat)
}

/// One violation per banned troop, in order, naming the troop.
pub open spec fn ban_notes(c: RoomConfigView, ts: Seq<TroopBrief>) -> Seq<(Option<usize>, Seq<char>)>
    decreases ts.len(),
{
    if ts.len() == 0 {
        Seq::empty()
    } else {
        let before = ban_notes(c, ts.drop_last());
        if banned_set(c).contains(ts.last().unit_id) {
            before.push((Some((ts.len() - 1) as usize), msg_banned_unit(ts.last().unit_id)))
        } else {
            before
        }
    }
}

/// The violations of the room's rules by an army: banned troops, then too
/// many units, too many mages, and a price over the limit.
pub open spec fn army_violations(c: RoomConfigView, ts: Seq<TroopBrief>) -> Seq<(Option<usize>, Seq<char>)> {
    let units: Seq<(Option<usize>, Seq<char>)> = match c.max_units {
        Some(max) => if ts.len() > max {
            seq![(None, msg_too_many_units(ts.len(), max))]
        } else {
            Seq::empty()
        },
        None => Seq::empty(),
    };
    let mages: Seq<(Option<usize>, Seq<char>)> = match c.max_mages {
        Some(max) => if army_mages(ts) > max {
            seq![(None, msg_too_many_mages(army_mages(ts), max))]
        } else {
            Seq::empty()
        },
        None => Seq::empty(),
    };
    let spent = army_spent(c, ts);
    let budget: Seq<(Option<usize>, Seq<char>)> = match c.limit_kind {
        LimitKind::Gold => if spent > c.gold_per_side {
            seq![(None, msg_over_gold(spent, c.gold_per_side))]
        } else {
            Seq::empty()
        },
        LimitKind::Points => if spent > c.gold_per_side {
            seq![(None, msg_over_points(spent, c.gold_per_side))]
        } else {
            Seq::empty()
        },
        LimitKind::NoLimit => Seq::empty(),
    };
    ban_notes(c, ts) + units + mages + budget
}

/// The views of a list of violations.
pub open spec fn violation_views(v: Seq<RuleViolation>) -> Seq<(Option<usize>, Seq<char>)> {
    v.map_values(|x: RuleViolation| (x.unit, x.message@))
}

/// A violation with no troop named.
fn army_note(message: String) -> (r: RuleViolation)
    ensures
        r.unit is None,
        r.message == message,
{
    RuleViolation { unit: None, message }
}

impl RoomConfig {
    /// The price of `t` against this room's limit.
    fn price_of(&self, t: &TroopBrief) -> (r: u64)
        ensures
            r == troop_price(self@, *t),
    {
        match self.limit_kind {
            LimitKind::Gold => t.cost_hire,
            LimitKind::Points => match &self.points_table {
                Some(table) => match table.get(&t.unit_id) {
                    Some(v) => *v,
                    None => t.cost_hire,
                },
                None => t.cost_hire,
            },
            LimitKind::NoLimit => 0,
        }
    }

    /// Checks an army against the room's rules (see `army_violations`).
    pub fn check_army(&self, troops: &Vec<TroopBrief>) -> (r: Vec<RuleViolation>)
        requires
            army_spent(self@, troops@) <= u64::MAX,
        ensures
            violation_views(r@) == army_violations(self@, troops@),
    {
        let banned = self.banned_units();
        let mut violations: Vec<RuleViolation> = Vec::new();
        let mut spent: u64 = 0;
        let mut mages: usize = 0;
        let mut i: usize = 0;
        assert(violation_views(violations@) =~= Seq::empty());
        while i < troops.len()
            invariant
                i <= troops@.len(),
                banned@.to_set() == banned_set(self@),
                army_spent(self@, troops@) <= u64::MAX,
                spent == army_spent(self@, troops@.subrange(0, i as int)),
                mages == army_mages(troops@.subrange(0, i as int)),
                mages <= i,
                violation_views(violations@) == ban_notes(self@, troops@.subrange(0, i as int)),
            decreases troops.len() - i,
        {
            let ghost sub = troops@.subrange(0, i + 1);
            proof {
                assert(sub.drop_last() =~= troops@.subrange(0, i as int));
                assert(sub.last() == troops@[i as int]);
                lemma_spent_prefix(self@, troops@, i + 1);
            }
            let t = &troops[i];
            let ghost before = violations@;
            if vec_contains_usize(&banned, t.unit_id) {
                let mut m = owned("Юнит ");
                push_dec(&mut m, t.unit_id as u64);
                m.append(" запрещён правилами комнаты");
                violations.push(RuleViolation { unit: Some(i), message: m });
                assert(violation_views(violations@) =~= violation_views(before).push(
                    (Some(i), msg_banned_unit(t.unit_id)),
                ));
            } else {
                assert(!banned@.to_set().contains(t.unit_id));
            }
            if t.is_mage {
                mages = mages + 1;
            }
            spent = spent + self.price_of(t);
            i = i + 1;
        }
        assert(troops@.subrange(0, troops@.len() as int) =~= troops@);
        let ghost bans = violations@;
        match self.max_units {
            Some(max) => {
                if troops.len() > max as usize {
                    let mut m = owned("Слишком много юнитов: ");
                    push_dec(&mut m, troops.len() as u64);
                    m.append(" (лимит ");
                    push_dec(&mut m, max as u64);
                    m.append(")");
                    violations.push(army_note(m));
                }
            },
            None => {},
        }
        let ghost after_units = violations@;
        match self.max_mages {
            Some(max) => {
                if mages > max as usize {
                    let mut m = owned("Слишком много магов: ");
                    push_dec(&mut m, mages as u64);
                    m.append(" (лимит ");
                    push_dec(&mut m, max as u64);
                    m.append(")");
                    violations.push(army_note(m));
                }
            },
            None => {},
        }
        let ghost after_mages = violations@;
        match self.limit_kind {
            LimitKind::Gold => {
                if spent > self.gold_per_side {
                    let mut m = owned("Превышен бюджет: ");
                    push_dec(&mut m, spent);
                    m.append(" из ");
                    push_dec(&mut m, self.gold_per_side);
                    m.append(" золота");
                    violations.push(army_note(m));
                }
            },
            LimitKind::Points => {
                if spent > self.gold_per_side {
                    let mut m = owned("Превышен лимит поинтов: ");
                    push_dec(&mut m, spent);
                    m.append(" из ");
                    push_dec(&mut m, self.gold_per_side);
                    violations.push(army_note(m));
                }
            },
            LimitKind::NoLimit => {},
        }
        assert(violation_views(violations@) =~= army_violations(self@, troops@));
        violations
    }
}

proof fn lemma_spent_prefix(c: RoomConfigView, ts: Seq<TroopBrief>, k: int)
    requires
        0 <= k <= ts.len(),
    ensures
        army_spent(c, ts.subrange(0, k)) <= army_spent(c, ts),
    decreases ts.len() - k,
{
    if k < ts.len() {
        lemma_spent_prefix(c, ts, k + 1);
        assert(ts.subrange(0, k + 1).drop_last() =~= ts.subrange(0, k));
    } else {
        assert(ts.subrange(0, k) =~= ts);
    }
}

/// The room table tells the truth about spectators: the row of a room
/// that forbids them says so, and the row of one that allows them says
/// that; and for a room open to newcomers (not finished) and a name that
/// is not yet in it, a spectator's `join` is refused with
/// `SpectatorsForbidden` exactly when the row says spectators are not
/// allowed.
pub proof fn lemma_summary_spectators(rooms: Map<RoomId, Room>, id: RoomId, n: Seq<char>)
    requires
        rooms.dom().contains(id),
    ensures
        rooms[id].config.spectators == SpectatorPolicy::Forbidden ==> !summary_of(rooms[id]).spectators_allowed,
        rooms[id].config.spectators == SpectatorPolicy::Allowed ==> summary_of(rooms[id]).spectators_allowed,
        n.len() > 0 && rooms[id].status != RoomStatus::Finished && !members(rooms[id]).contains(n) ==> (join_error(
            rooms,
            id,
            n,
            true,
        ) == Some(RoomError::SpectatorsForbidden) <==> !summary_of(rooms[id]).spectators_allowed),
{
}

/// A spectator who joins a room and then leaves it leaves every room shown
/// as it was before.
pub proof fn lemma_spectator_join_then_leave(
    m0: RoomManager,
    m1: RoomManager,
    m2: RoomManager,
    id: RoomId,
    name: Seq<char>,
    r1: Result<RoomView, RoomError>,
    r2: Result<Option<PvpRoomSummary>, RoomError>,
)
    requires
        m0.wf(),
        join_spec(m0, m1, id, name, true, r1),
        r1 is Ok,
        leave_spec(m1, m2, id, trim(name), r2),
    ensures
        r2 is Ok,
        m2.rooms_map().dom() == m0.rooms_map().dom(),
        forall|k: RoomId| #[trigger]
            m0.rooms_map().dom().contains(k) ==> room_view_of(m2.rooms_map()[k]) == room_view_of(
                m0.rooms_map()[k],
            ),
{
    let n = trim(name);
    assert(join_error(m0.rooms_map(), id, n, true) is None);
    let room = m0.rooms_map()[id];
    let nr = m1.rooms_map()[id];
    assert(m1.rooms_map().dom().contains(id));
    assert(!members(room).contains(n));
    assert forall|k: int| 0 <= k < names(room.players@).len() implies names(room.players@)[k] != n by {
        assert(members(room)[k] == names(room.players@)[k]);
    }
    assert forall|k: int| 0 <= k < names(room.spectators@).len() implies names(room.spectators@)[k] != n by {
        assert(members(room)[names(room.players@).len() + k] == names(room.spectators@)[k]);
    }
    lemma_find_at(names(nr.players@), n, names(nr.players@).len() as int);
    let sp = names(room.spectators@);
    assert(names(nr.spectators@) == sp.push(n));
    lemma_find_at(names(nr.spectators@), n, sp.len() as int);
    let nr2 = m2.rooms_map()[id];
    lemma_names_remove(nr.spectators@, sp.len() as int);
    assert(names(nr2.spectators@) =~= sp);
    assert(room_view_of(nr2) == room_view_of(room));
    assert(m2.rooms_map().dom() =~= m0.rooms_map().dom());
}

/// The room table lists the live rooms by increasing id.
pub proof fn lemma_list_sorted(m: RoomManager, l: Seq<SummaryView>)
    requires
        m.wf(),
        l.len() == m.room_ids().len(),
        forall|i: int| 0 <= i < l.len() ==> #[trigger] l[i] == summary_of(m.rooms_map()[m.room_ids()[i]]),
    ensures
        forall|i: int, j: int| 0 <= i < j < l.len() ==> #[trigger] l[i].id < #[trigger] l[j].id,
{
    m.lemma_wf();
    assert forall|i: int, j: int| 0 <= i < j < l.len() implies #[trigger] l[i].id < #[trigger] l[j].id by {
        let a = m.room_ids()[i];
        let b = m.room_ids()[j];
        assert(m.room_ids().to_set().contains(a));
        assert(m.room_ids().to_set().contains(b));
        assert(m.rooms_map().dom().contains(a));
        assert(m.rooms_map().dom().contains(b));
    }
}

} // verus!
