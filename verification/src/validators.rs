//! Checks of a map being edited. The patrol check: every army stands on the
//! map, and the patrol circle of an army led by the computer stays inside
//! the map (a route past the bottom border crashes the game).
use crate::editor::{ArmyMark, MapProject};
use crate::text::{dec, push_dec};
use vstd::prelude::*;

verus! {

/// How serious an issue is.
#[derive(Debug, Clone, Copy, PartialEq, Eq, Structural)]
pub enum Severity {
    Error,
    Warning,
}

/// Where an issue was found: an object of the map, by kind and index.
#[derive(Debug, Clone, PartialEq, Eq)]
pub enum IssueLocation {
    Object { kind: String, index: usize },
}

/// A problem found by a check.
#[derive(Debug, Clone)]
pub struct Issue {
    pub severity: Severity,
    pub validator: String,
    pub guide: String,
    pub message: String,
    pub location: IssueLocation,
}

impl Issue {
    /// An error found by the check `validator`.
    pub fn error(validator: &str, guide: &str, message: String, location: IssueLocation) -> (r: Issue)
        ensures
            r.severity == Severity::Error,
            r.validator@ == validator@,
            r.guide@ == guide@,
            r.message == message,
            r.location == location,
    {
        Issue {
            severity: Severity::Error,
            validator: crate::text::owned(validator),
            guide: crate::text::owned(guide),
            message,
            location,
        }
    }
}

/// The check of army places and patrol radii.
pub struct PatrolBounds;

/// Text of an army standing off the map.
pub open spec fn off_map_text(name: Seq<char>, x: nat, y: nat, size: nat) -> Seq<char> {
    "Армия «"@ + name + "» стоит за границей карты: ("@ + dec(x) + ", "@ + dec(y) + ") вне 0.."@
        + dec(size) + " x 0.."@ + dec(size)
}

/// Text of a patrol crossing the bottom border.
pub open spec fn bottom_text(name: Seq<char>, radius: nat, y: nat, size: nat) -> Seq<char> {
    "Патруль армии «"@ + name + "» (радиус "@ + dec(radius)
        + ") выходит за нижнюю границу карты: y="@ + dec(y) + ", размер="@ + dec(size)
}

/// Text of a patrol crossing the right border.
pub open spec fn right_text(name: Seq<char>, radius: nat, x: nat, size: nat) -> Seq<char> {
    "Патруль армии «"@ + name + "» (радиус "@ + dec(radius)
        + ") выходит за правую границу карты: x="@ + dec(x) + ", размер="@ + dec(size)
}

/// The problems with army `a` (number `index`) on a map of side `size`,
/// as messages.
pub open spec fn army_problems(a: ArmyMark, size: nat) -> Seq<Seq<char>> {
    let (x, y) = a.pos;
    if x >= size || y >= size {
        seq![off_map_text(a.name@, x as nat, y as nat, size)]
    } else {
        match a.patrol_radius {
            Some(r) => {
                let rr = (r as usize) as nat;
                (if y + rr >= size {
                    seq![bottom_text(a.name@, r as nat, y as nat, size)]
                } else {
                    Seq::empty()
                }) + (if x + rr >= size {
                    seq![right_text(a.name@, r as nat, x as nat, size)]
                } else {
                    Seq::empty()
                })
            },
            None => Seq::empty(),
        }
    }
}

/// The problems of all armies, in order, each with the army's index.
pub open spec fn patrol_problems(armies: Seq<ArmyMark>, size: nat) -> Seq<(Seq<char>, usize)>
    decreases armies.len(),
{
    if armies.len() == 0 {
        Seq::empty()
    } else {
        let k = (armies.len() - 1) as int;
        patrol_problems(armies.drop_last(), size) + army_problems(armies.last(), size).map_values(
            |m: Seq<char>| (m, k as usize),
        )
    }
}

/// The patrol sums of the check fit in a machine word.
pub open spec fn patrol_sums_fit(armies: Seq<ArmyMark>) -> bool {
    forall|i: int|
        0 <= i < armies.len() ==> match (#[trigger] armies[i]).patrol_radius {
            Some(r) => armies[i].pos.0 + (r as usize) <= usize::MAX && armies[i].pos.1 + (r as usize)
                <= usize::MAX,
            None => true,
        }
}

/// The messages and object indices of a list of issues.
pub open spec fn issue_texts(v: Seq<Issue>) -> Seq<(Seq<char>, usize)> {
    v.map_values(
        |i: Issue|
            (
                i.message@,
                match i.location {
                    IssueLocation::Object { index, .. } => index,
                },
            ),
    )
}

/// An error of the patrol check about an army.
pub open spec fn patrol_issue(i: Issue) -> bool {
    &&& i.severity == Severity::Error
    &&& i.validator@ == "PatrolBounds"@
    &&& i.guide@ == "guide 9.6/9.12"@
    &&& i.location matches IssueLocation::Object { kind, .. } && kind@ == "army"@
}

/// The issue of army `index` with text `message`.
fn army_issue(message: String, index: usize) -> (r: Issue)
    ensures
        patrol_issue(r),
        r.message == message,
        r.location matches IssueLocation::Object { index: i, .. } && i == index,
{
    Issue::error(
        "PatrolBounds",
        "guide 9.6/9.12",
        message,
        IssueLocation::Object { kind: crate::text::owned("army"), index },
    )
}

impl PatrolBounds {
    /// The name of the check.
    pub fn name(&self) -> (r: &'static str)
        ensures
            r@ == "PatrolBounds"@,
    {
        "PatrolBounds"
    }

    /// The part of the guide the check follows.
    pub fn guide_reference(&self) -> (r: &'static str)
        ensures
            r@ == "guide 9.6/9.12"@,
    {
        "guide 9.6/9.12"
    }

    /// Checks the armies of `project`: one error for an army off the map;
    /// for an army on it with a patrol radius, one error if the radius
    /// reaches the bottom border and one if it reaches the right border.
    /// A map of side 0 gives nothing.
    pub fn validate(&self, project: &MapProject) -> (r: Vec<Issue>)
        requires
            patrol_sums_fit(project.army_marks()),
        ensures
            forall|i: int| 0 <= i < r@.len() ==> patrol_issue(#[trigger] r@[i]),
            issue_texts(r@) == if project.side() == 0 {
                Seq::empty()
            } else {
                patrol_problems(project.army_marks(), project.side() as nat)
            },
    {
        let mut issues: Vec<Issue> = Vec::new();
        let size = project.size();
        if size == 0 {
            assert(issue_texts(issues@) =~= Seq::empty());
            return issues;
        }
        let armies = project.armies();
        let ghost marks = armies@;
        let mut index: usize = 0;
        assert(issue_texts(issues@) =~= Seq::empty());
        while index < armies.len()
            invariant
                index <= marks.len(),
                marks == armies@,
                marks == project.army_marks(),
                size == project.side(),
                size > 0,
                patrol_sums_fit(marks),
                issue_texts(issues@) == patrol_problems(marks.subrange(0, index as int), size as nat),
                forall|i: int| 0 <= i < issues@.len() ==> patrol_issue(#[trigger] issues@[i]),
            decreases marks.len() - index,
        {
            let army = &armies[index];
            let ghost before = issues@;
            let ghost sub = marks.subrange(0, index + 1);
            proof {
                assert(sub.drop_last() =~= marks.subrange(0, index as int));
                assert(sub.last() == *army);
            }
            let (x, y) = army.pos;
            if x >= size || y >= size {
                let mut m = String::new();
                m.append("Армия «");
                m.append(army.name.as_str());
                m.append("» стоит за границей карты: (");
                push_dec(&mut m, x as u64);
                m.append(", ");
                push_dec(&mut m, y as u64);
                m.append(") вне 0..");
                push_dec(&mut m, size as u64);
                m.append(" x 0..");
                push_dec(&mut m, size as u64);
                assert(m@ =~= off_map_text(army.name@, x as nat, y as nat, size as nat));
                issues.push(army_issue(m, index));
                proof {
                    assert(issue_texts(issues@) =~= issue_texts(before) + army_problems(*army, size as nat).map_values(
                        |m: Seq<char>| (m, index),
                    ));
                }
            } else {
                match army.patrol_radius {
                    Some(radius) => {
                        proof {
                            assert(patrol_sums_fit(marks));
                            assert(marks[index as int] == *army);
                        }
                        let rr = radius as usize;
                        let ghost mid = issues@;
                        if y + rr >= size {
                            let mut m = String::new();
                            m.append("Патруль армии «");
                            m.append(army.name.as_str());
                            m.append("» (радиус ");
                            push_dec(&mut m, radius);
                            m.append(") выходит за нижнюю границу карты: y=");
                            push_dec(&mut m, y as u64);
                            m.append(", размер=");
                            push_dec(&mut m, size as u64);
                            assert(m@ =~= bottom_text(army.name@, radius as nat, y as nat, size as nat));
                            issues.push(army_issue(m, index));
                        }
                        let ghost mid2 = issues@;
                        if x + rr >= size {
                            let mut m = String::new();
                            m.append("Патруль армии «");
                            m.append(army.name.as_str());
                            m.append("» (радиус ");
                            push_dec(&mut m, radius);
                            m.append(") выходит за правую границу карты: x=");
                            push_dec(&mut m, x as u64);
                            m.append(", размер=");
                            push_dec(&mut m, size as u64);
                            assert(m@ =~= right_text(army.name@, radius as nat, x as nat, size as nat));
                            issues.push(army_issue(m, index));
                        }
                        proof {
                            assert(issue_texts(issues@) =~= issue_texts(before) + army_problems(*army, size as nat).map_values(
                                |m: Seq<char>| (m, index),
                            ));
                        }
                    },
                    None => {
                        assert(army_problems(*army, size as nat) =~= Seq::empty());
                        assert(issue_texts(issues@) =~= issue_texts(before) + army_problems(*army, size as nat).map_values(
                            |m: Seq<char>| (m, index),
                        ));
                    },
                }
            }
            index = index + 1;
        }
        assert(marks.subrange(0, marks.len() as int) =~= marks);
        issues
    }
}

} // verus!
