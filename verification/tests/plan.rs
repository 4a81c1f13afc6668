use pane_dock::plan::{plan_changes, PaneChange};
use pane_dock::state::PaneData;

fn identities(ids: &[i32]) -> Vec<PaneData> {
    ids.iter().map(|&id| PaneData { id }).collect()
}

fn carry_out(items: &mut Vec<i32>, plan: &Vec<PaneChange>) {
    for change in plan.iter() {
        match *change {
            PaneChange::Destroy { index } => {
                items.remove(index);
            }
            PaneChange::Create { index } => items.insert(index, 0),
        }
    }
}

#[test]
fn first_run_plans_one_pane_per_identity_at_the_end() {
    assert_eq!(
        plan_changes(2, None, &identities(&[7, 8, 9])),
        vec![
            PaneChange::Create { index: 2 },
            PaneChange::Create { index: 3 },
            PaneChange::Create { index: 4 },
        ]
    );
    assert_eq!(plan_changes(0, None, &identities(&[])), Vec::new());
}

#[test]
fn plan_destroys_last_first_and_then_creates_first_first() {
    let previous = identities(&[1, 2, 3, 4]);
    let next = identities(&[5, 1, 6, 3]);
    assert_eq!(
        plan_changes(4, Some(&previous), &next),
        vec![
            PaneChange::Destroy { index: 3 },
            PaneChange::Destroy { index: 1 },
            PaneChange::Create { index: 0 },
            PaneChange::Create { index: 2 },
        ]
    );
}

#[test]
fn plan_for_the_same_identities_is_empty() {
    let same = identities(&[4, 2, 9]);
    assert_eq!(plan_changes(3, Some(&same), &same), Vec::new());
    assert_eq!(plan_changes(3, Some(&same), &identities(&[9, 4, 2])), Vec::new());
}

#[test]
fn carrying_out_the_plan_keeps_a_run_in_step_with_the_identities() {
    let previous = identities(&[1, 2, 3]);
    let next = identities(&[1, 4, 2, 3]);
    let mut items = vec![11, 12, 13];
    carry_out(&mut items, &plan_changes(3, Some(&previous), &next));
    assert_eq!(items, vec![11, 0, 12, 13]);
    let after = identities(&[3, 1]);
    carry_out(&mut items, &plan_changes(4, Some(&next), &after));
    assert_eq!(items, vec![11, 13]);
}
