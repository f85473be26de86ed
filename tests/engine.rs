use labelexim::config::Config;
use labelexim::label::{Color, Label};
use labelexim::reconcile::{names_match, plan_import, LabelOp};
use labelexim::run::ImportRun;

fn label(name: &str, description: &str, color: Color) -> Label {
    Label { name: name.to_string(), description: description.to_string(), color }
}

fn named(name: &str) -> Label {
    label(name, "", Color { r: 1, g: 2, b: 3 })
}

#[test]
fn merge_updates_matching_label_by_current_name() {
    let current = vec![label("Bug", "", Color { r: 255, g: 0, b: 0 })];
    let desired = vec![label("bug", "issue", Color { r: 0, g: 255, b: 0 })];
    let ops = plan_import(&desired, &current, false);
    assert_eq!(
        ops,
        vec![LabelOp::Update { current_name: "Bug".to_string(), label: desired[0].clone() }]
    );
}

#[test]
fn merge_creates_into_empty_repository() {
    let desired = vec![label("enhancement", "new feature", Color { r: 0xa2, g: 0xee, b: 0xef })];
    let ops = plan_import(&desired, &Vec::new(), false);
    assert_eq!(ops, vec![LabelOp::Create(desired[0].clone())]);
}

#[test]
fn merge_leaves_unlisted_labels_alone() {
    let current = vec![named("keep"), named("A")];
    let desired = vec![named("a"), named("new")];
    let ops = plan_import(&desired, &current, false);
    assert_eq!(
        ops,
        vec![
            LabelOp::Update { current_name: "A".to_string(), label: named("a") },
            LabelOp::Create(named("new")),
        ]
    );
}

#[test]
fn override_deletes_all_then_creates_all() {
    let current = vec![named("A"), named("B")];
    let desired = vec![named("B"), named("C")];
    let ops = plan_import(&desired, &current, true);
    assert_eq!(
        ops,
        vec![
            LabelOp::Delete("A".to_string()),
            LabelOp::Delete("B".to_string()),
            LabelOp::Create(named("B")),
            LabelOp::Create(named("C")),
        ]
    );
}

#[test]
fn override_deletes_each_key_once() {
    let current = vec![named("Dup"), named("dup"), named("x")];
    let ops = plan_import(&Vec::new(), &current, true);
    assert_eq!(ops, vec![LabelOp::Delete("Dup".to_string()), LabelOp::Delete("x".to_string())]);
}

#[test]
fn name_matching_ignores_ascii_case() {
    assert!(names_match("Bug", "bug"));
    assert!(names_match("GOOD first-Issue", "good FIRST-issue"));
    assert!(!names_match("bug", "bugs"));
    assert!(!names_match("É", "é"));
    let ops = plan_import(&vec![named("Bug")], &vec![named("bug")], false);
    assert_eq!(ops, vec![LabelOp::Update { current_name: "bug".to_string(), label: named("Bug") }]);
}

#[test]
fn first_failure_aborts_the_run() {
    let ops = vec![
        LabelOp::Delete("A".to_string()),
        LabelOp::Delete("B".to_string()),
        LabelOp::Create(named("B")),
        LabelOp::Create(named("C")),
    ];
    let mut run = ImportRun::new(ops.clone());
    let answers = [true, false, true, true];
    let mut issued = Vec::new();
    let mut k = 0;
    while let Some(op) = run.pending() {
        issued.push(op.clone());
        let ok = answers[k];
        k += 1;
        run.record(ok);
    }
    assert_eq!(issued, ops[..2].to_vec());
    assert!(run.has_failed());
    assert!(!run.is_complete());
    assert_eq!(run.succeeded(), 1);
}

#[test]
fn run_without_failure_makes_every_call() {
    let ops = vec![LabelOp::Create(named("x")), LabelOp::Delete("y".to_string())];
    let mut run = ImportRun::new(ops.clone());
    let mut issued = Vec::new();
    while let Some(op) = run.pending() {
        issued.push(op.clone());
        run.record(true);
    }
    assert_eq!(issued, ops);
    assert!(run.is_complete());
    assert_eq!(run.succeeded(), 2);
}

#[test]
fn login_with_rejected_token_keeps_config() {
    let mut cfg = Config { token: "old".to_string() };
    assert!(!cfg.login("new", false));
    assert_eq!(cfg.token, "old");
    assert!(cfg.login("new", true));
    assert_eq!(cfg.token, "new");
    cfg.logout();
    assert_eq!(cfg.token, "");
    assert_eq!(Config::default().token, "");
}
