use dt_lib::editor::{ArmyMark, MapProject};
use dt_lib::validators::{IssueLocation, PatrolBounds, Severity};

fn project_with_army(army: ArmyMark) -> MapProject {
    let mut project = MapProject::new(50, 0);
    project.push_army(army);
    project
}

fn army_at(x: usize, y: usize, patrol_radius: Option<u64>) -> ArmyMark {
    ArmyMark { name: "Test".into(), pos: (x, y), patrol_radius }
}

#[test]
fn positive_army_inside_bounds_passes() {
    let project = project_with_army(army_at(10, 10, Some(5)));
    assert!(PatrolBounds.validate(&project).is_empty());
}

#[test]
fn positive_no_patrol_passes() {
    let project = project_with_army(army_at(49, 49, None));
    assert!(PatrolBounds.validate(&project).is_empty());
}

#[test]
fn negative_patrol_crosses_bottom_border() {
    let project = project_with_army(army_at(10, 48, Some(5)));
    let issues = PatrolBounds.validate(&project);
    assert_eq!(issues.len(), 1);
    assert_eq!(issues[0].severity, Severity::Error);
    assert!(issues[0].message.contains("нижнюю границу"));
}

#[test]
fn negative_patrol_crosses_right_border() {
    let project = project_with_army(army_at(47, 3, Some(4)));
    let issues = PatrolBounds.validate(&project);
    assert_eq!(issues.len(), 1);
    assert!(issues[0].message.contains("правую границу"));
}

#[test]
fn negative_army_outside_map() {
    let project = project_with_army(army_at(60, 3, None));
    let issues = PatrolBounds.validate(&project);
    assert_eq!(issues.len(), 1);
    assert!(issues[0].message.contains("за границей карты"));
}

#[test]
fn negative_both_borders_reported() {
    let project = project_with_army(army_at(48, 48, Some(3)));
    let issues = PatrolBounds.validate(&project);
    assert_eq!(issues.len(), 2);
}

#[test]
fn patrol_messages_are_exact() {
    let mut project = MapProject::new(50, 0);
    project.push_army(army_at(60, 3, None));
    project.push_army(army_at(48, 48, Some(3)));
    let issues = PatrolBounds.validate(&project);
    assert_eq!(issues.len(), 3);
    assert_eq!(issues[0].message, "Армия «Test» стоит за границей карты: (60, 3) вне 0..50 x 0..50");
    assert_eq!(
        issues[1].message,
        "Патруль армии «Test» (радиус 3) выходит за нижнюю границу карты: y=48, размер=50"
    );
    assert_eq!(
        issues[2].message,
        "Патруль армии «Test» (радиус 3) выходит за правую границу карты: x=48, размер=50"
    );
    assert_eq!(issues[0].location, IssueLocation::Object { kind: "army".into(), index: 0 });
    assert_eq!(issues[2].location, IssueLocation::Object { kind: "army".into(), index: 1 });
    assert_eq!(issues[1].validator, PatrolBounds.name());
    assert_eq!(issues[1].guide, PatrolBounds.guide_reference());
}

#[test]
fn empty_map_has_no_issues() {
    let mut project = MapProject::new(0, 0);
    project.push_army(army_at(5, 5, Some(1)));
    assert!(PatrolBounds.validate(&project).is_empty());
}
