use dt_lib::room::{
    DraftRules, LimitKind, RoomConfig, RoomError, RoomId, RoomManager, RoomStatus, SpectatorPolicy,
    TroopBrief,
};
use std::collections::HashMap;

fn battle_config() -> RoomConfig {
    RoomConfig {
        title: "Тестовая битва".into(),
        ..Default::default()
    }
}

#[test]
fn create_and_list_sorted() {
    let mut mgr = RoomManager::new();
    let id1 = mgr.create(battle_config(), "Аня").unwrap();
    let id2 = mgr
        .create(
            RoomConfig {
                title: "Вторая".into(),
                rated: true,
                ..Default::default()
            },
            "Боря",
        )
        .unwrap();
    assert_ne!(id1, id2);
    let list = mgr.list();
    assert_eq!(list.len(), 2);
    assert!(list[0].id < list[1].id);
    let first = &list[0];
    assert_eq!(first.title, "Тестовая битва");
    assert_eq!(first.players, 1);
    assert_eq!(first.players_max, 2);
    assert_eq!(first.status, RoomStatus::Lobby);
    assert_eq!(first.host.display_name, "Аня");
    assert!(first.spectators_allowed);
}

#[test]
fn create_rejects_bad_config_and_name() {
    let mut mgr = RoomManager::new();
    assert_eq!(mgr.create(battle_config(), "  "), Err(RoomError::EmptyName));
    let bad = RoomConfig {
        gold_per_side: 0,
        ..Default::default()
    };
    assert!(matches!(mgr.create(bad, "Аня"), Err(RoomError::InvalidConfig(_))));
}

#[test]
fn join_battle_room_full() {
    let mut mgr = RoomManager::new();
    let id = mgr.create(battle_config(), "host").unwrap();
    mgr.join(id, "второй", false).unwrap();
    assert_eq!(mgr.join(id, "третий", false), Err(RoomError::Full));
}

#[test]
fn join_spectator_policy() {
    let mut mgr = RoomManager::new();
    let open = mgr.create(battle_config(), "host").unwrap();
    mgr.join(open, "зритель", true).unwrap();
    let closed_cfg = RoomConfig {
        spectators: SpectatorPolicy::Forbidden,
        ..Default::default()
    };
    let closed = mgr.create(closed_cfg, "host2").unwrap();
    assert_eq!(mgr.join(closed, "зритель", true), Err(RoomError::SpectatorsForbidden));
}

#[test]
fn join_duplicate_and_unknown() {
    let mut mgr = RoomManager::new();
    let id = mgr.create(battle_config(), "host").unwrap();
    assert_eq!(mgr.join(id, "host", false), Err(RoomError::AlreadyInRoom));
    assert_eq!(mgr.join(RoomId::MAX, "никем", false), Err(RoomError::RoomNotFound));
    assert_eq!(mgr.join(id, "", false), Err(RoomError::EmptyName));
}

#[test]
fn join_player_forbidden_after_start() {
    let mut mgr = RoomManager::new();
    let id = mgr.create(battle_config(), "host").unwrap();
    mgr.join(id, "второй", false).unwrap();
    mgr.start(id, "host").unwrap();
    assert_eq!(mgr.join(id, "третий", false), Err(RoomError::WrongStatus));
    mgr.join(id, "зритель", true).unwrap();
}

#[test]
fn leave_host_shift_and_close() {
    let mut mgr = RoomManager::new();
    let id = mgr.create(battle_config(), "хост").unwrap();
    mgr.join(id, "второй", false).unwrap();
    assert_eq!(mgr.leave(id, "левый"), Err(RoomError::NotInRoom));
    let summary = mgr.leave(id, "хост").unwrap().unwrap();
    assert_eq!(summary.host.display_name, "второй");
    assert_eq!(summary.players, 1);
    assert!(mgr.leave(id, "второй").unwrap().is_none());
    assert_eq!(mgr.get(id), None);
}

#[test]
fn kick_requires_host() {
    let mut mgr = RoomManager::new();
    let id = mgr.create(battle_config(), "host").unwrap();
    mgr.join(id, "второй", false).unwrap();
    mgr.join(id, "зритель", true).unwrap();
    assert_eq!(mgr.kick(id, "второй", "зритель"), Err(RoomError::NotHost));
    assert_eq!(mgr.kick(id, "host", "host"), Err(RoomError::NotInRoom));
    assert_eq!(mgr.kick(id, "host", "никем"), Err(RoomError::NotInRoom));
    let summary = mgr.kick(id, "host", "зритель").unwrap();
    assert_eq!(summary.spectators, 0);
    assert_eq!(summary.players, 2);
}

#[test]
fn start_rules() {
    let mut mgr = RoomManager::new();
    let id = mgr.create(battle_config(), "host").unwrap();
    assert_eq!(mgr.start(id, "host"), Err(RoomError::NotEnoughPlayers));
    mgr.join(id, "второй", false).unwrap();
    assert_eq!(mgr.start(id, "второй"), Err(RoomError::NotHost));
    mgr.start(id, "host").unwrap();
    assert_eq!(mgr.get(id).unwrap().status, RoomStatus::InGame);
    assert_eq!(mgr.start(id, "host"), Err(RoomError::WrongStatus));
}

#[test]
fn config_validate_cases() {
    assert!(battle_config().validate().is_ok());
    let no_title = RoomConfig {
        title: "   ".into(),
        ..Default::default()
    };
    assert!(no_title.validate().is_err());
    let no_gold = RoomConfig {
        gold_per_side: 0,
        ..Default::default()
    };
    assert!(no_gold.validate().is_err());
    let points_no_table = RoomConfig {
        limit_kind: LimitKind::Points,
        ..Default::default()
    };
    assert!(points_no_table.validate().is_err());
    let points_with_table = RoomConfig {
        limit_kind: LimitKind::Points,
        points_table: Some(HashMap::from([(20usize, 100u64)])),
        ..Default::default()
    };
    assert!(points_with_table.validate().is_ok());
    let ban_overlap = RoomConfig {
        draft: DraftRules {
            bans: [vec![3], vec![3]],
        },
        ..Default::default()
    };
    assert!(ban_overlap.validate().is_err());
    let zero_units = RoomConfig {
        max_units: Some(0),
        ..Default::default()
    };
    assert!(zero_units.validate().is_err());
}

#[test]
fn room_error_messages() {
    assert_eq!(RoomError::Full.message(), "В комнате нет мест");
    assert_eq!(
        RoomError::InvalidConfig("x".into()).message(),
        "Некорректный конфиг: x"
    );
}

#[test]
fn validate_reports_problem_texts_in_order() {
    let no_gold = RoomConfig {
        gold_per_side: 0,
        ..Default::default()
    };
    assert_eq!(
        no_gold.validate(),
        Err("Бюджет (золото на сторону) должен быть больше нуля".to_string())
    );
    let both = RoomConfig {
        title: " ".into(),
        gold_per_side: 0,
        ..Default::default()
    };
    assert_eq!(
        both.validate(),
        Err("Название комнаты не может быть пустым".to_string())
    );
}

#[test]
fn leave_is_undone_by_join_for_spectators() {
    let mut mgr = RoomManager::new();
    let id = mgr.create(battle_config(), "host").unwrap();
    mgr.join(id, "зритель", true).unwrap();
    let before = mgr.view(id).unwrap();
    let after_leave = mgr.leave(id, "зритель").unwrap().unwrap();
    assert_eq!(after_leave.spectators, 0);
    mgr.join(id, "зритель", true).unwrap();
    assert_eq!(mgr.view(id).unwrap(), before);
}

fn troops_of(ids: &[usize]) -> Vec<TroopBrief> {
    // unit 20: a butcher hired for free; 21: a soldier; 22: a death mage
    ids.iter()
        .map(|&id| TroopBrief {
            unit_id: id,
            is_mage: id == 22,
            cost_hire: match id {
                20 => 0,
                21 => 50,
                _ => 200,
            },
        })
        .collect()
}

#[test]
fn check_army_limit_gold() {
    let army = troops_of(&[20, 20, 20]);
    let config = RoomConfig {
        limit_kind: LimitKind::Points,
        points_table: Some(HashMap::from([(20usize, 100u64)])),
        gold_per_side: 250,
        ..Default::default()
    };
    let v = config.check_army(&army);
    assert_eq!(v.len(), 1);
    assert!(v[0].unit.is_none());
    assert!(v[0].message.contains("300"));
    let config = RoomConfig {
        gold_per_side: 300,
        ..config
    };
    assert!(config.check_army(&army).is_empty());
}

#[test]
fn check_army_banlist_and_draft() {
    let army = troops_of(&[20, 21]);
    let config = RoomConfig {
        banlist_units: vec![20],
        ..Default::default()
    };
    let v = config.check_army(&army);
    assert_eq!(v.len(), 1);
    assert_eq!(v[0].unit, Some(0));
    let config = RoomConfig {
        draft: DraftRules {
            bans: [vec![], vec![21]],
        },
        ..Default::default()
    };
    let v = config.check_army(&army);
    assert_eq!(v.len(), 1);
    assert_eq!(v[0].unit, Some(1));
}

#[test]
fn check_army_units_and_mages() {
    let army = troops_of(&[22, 20]);
    let config = RoomConfig {
        max_mages: Some(0),
        ..Default::default()
    };
    let v = config.check_army(&army);
    assert!(v.iter().any(|x| x.message.contains("магов")));
    let config = RoomConfig {
        max_units: Some(1),
        ..Default::default()
    };
    let v = config.check_army(&army);
    assert!(v.iter().any(|x| x.message.contains("юнитов")));
    let config = RoomConfig {
        limit_kind: LimitKind::NoLimit,
        ..Default::default()
    };
    assert!(config.check_army(&army).is_empty());
}

#[test]
fn check_army_messages_are_exact() {
    let army = troops_of(&[22, 22, 21]);
    let config = RoomConfig {
        gold_per_side: 100,
        max_units: Some(2),
        max_mages: Some(1),
        banlist_units: vec![21],
        ..Default::default()
    };
    let v = config.check_army(&army);
    let texts: Vec<(Option<usize>, String)> = v.into_iter().map(|x| (x.unit, x.message)).collect();
    assert_eq!(
        texts,
        vec![
            (Some(2), "Юнит 21 запрещён правилами комнаты".to_string()),
            (None, "Слишком много юнитов: 3 (лимит 2)".to_string()),
            (None, "Слишком много магов: 2 (лимит 1)".to_string()),
            (None, "Превышен бюджет: 450 из 100 золота".to_string()),
        ]
    );
    let config = RoomConfig {
        limit_kind: LimitKind::Points,
        points_table: Some(HashMap::from([(22usize, 10u64)])),
        gold_per_side: 60,
        ..Default::default()
    };
    let v = config.check_army(&army);
    assert_eq!(v.len(), 1);
    assert_eq!(v[0].message, "Превышен лимит поинтов: 70 из 60");
}
