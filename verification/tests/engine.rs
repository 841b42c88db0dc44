use engine_core::engine::{
    approval_label, card_lineage, collect_scan_text, decide_outcome, run_id, select_segment,
    split_holdout, split_segment, target_for, NodeText, Outcome, Program, SegmentKey,
};

fn program(id: &str, name: &str, target: i64) -> Program {
    Program {
        program_id: id.to_string(),
        program_name: name.to_string(),
        age_band: String::new(),
        start_date: String::new(),
        end_date: String::new(),
        target_n: target,
    }
}

fn key(program_id: &str, age_band: &str) -> SegmentKey {
    SegmentKey { program_id: program_id.to_string(), age_band: age_band.to_string() }
}

#[test]
fn segment_splits_at_first_bar() {
    let (a, p) = split_segment("18-24|Youth Skills").unwrap();
    assert_eq!(a, "18-24");
    assert_eq!(p, "Youth Skills");
    let (a, p) = split_segment("a|b|c").unwrap();
    assert_eq!((a.as_str(), p.as_str()), ("a", "b|c"));
    let (a, p) = split_segment("|").unwrap();
    assert_eq!((a.as_str(), p.as_str()), ("", ""));
}

#[test]
fn segment_without_bar_is_rejected() {
    assert_eq!(split_segment("18-24 Youth Skills").err(), Some("bad segment format".to_string()));
    assert!(split_segment("").is_err());
}

#[test]
fn run_id_replaces_bars() {
    assert_eq!(run_id("18-24|Youth Skills"), "r-18-24_Youth Skills");
    assert_eq!(run_id("a|b|c"), "r-a_b_c");
    assert_eq!(run_id(""), "r-");
}

#[test]
fn lineage_versions() {
    let l = card_lineage("25-40|Food Aid", "1.2.0", 0);
    assert_eq!(l.run_id, "r-25-40_Food Aid");
    assert_eq!(l.skill_version, "1.2.0");
    assert_eq!(l.playbook_version, "v1");
    assert_eq!(card_lineage("s", "", -7).playbook_version, "v1");
    assert_eq!(card_lineage("s", "", 12).playbook_version, "v12");
}

#[test]
fn segment_members_by_band_and_programme_name() {
    let programs = vec![program("p1", "Youth Skills", 100), program("p2", "Food Aid", 50)];
    let bs = vec![
        key("p1", "18-24"),
        key("p2", "18-24"),
        key("p1", "25-40"),
        key("p1", "18-24"),
        key("p9", "18-24"),
    ];
    assert_eq!(select_segment("18-24", "Youth Skills", &bs, &programs), vec![0, 3]);
    assert_eq!(select_segment("18-24", "Food Aid", &bs, &programs), vec![1]);
    assert!(select_segment("40+", "Food Aid", &bs, &programs).is_empty());
}

#[test]
fn segment_members_use_last_programme_with_an_id() {
    let programs = vec![program("p1", "Old Name", 1), program("p1", "New Name", 2)];
    let bs = vec![key("p1", "x")];
    assert!(select_segment("x", "Old Name", &bs, &programs).is_empty());
    assert_eq!(select_segment("x", "New Name", &bs, &programs), vec![0]);
}

#[test]
fn holdout_alternates() {
    let rows = vec![0.1, 0.2, 0.3, 0.4, 0.5];
    let (train, hold) = split_holdout(&rows);
    assert_eq!(train, vec![0.1, 0.3, 0.5]);
    assert_eq!(hold, vec![0.2, 0.4]);
    let (t, h) = split_holdout::<f64>(&vec![]);
    assert!(t.is_empty() && h.is_empty());
    let (t, h) = split_holdout(&vec![7u8]);
    assert_eq!((t, h), (vec![7u8], vec![]));
}

#[test]
fn target_is_first_programme_with_name() {
    let programs = vec![program("a", "X", 10), program("b", "Y", 20), program("c", "Y", 30)];
    assert_eq!(target_for(&programs, "Y"), 20);
    assert_eq!(target_for(&programs, "Z"), 0);
}

#[test]
fn outcome_and_approval() {
    assert!(decide_outcome(true, false) == Outcome::Validated);
    assert!(decide_outcome(true, true) == Outcome::Validated);
    assert!(decide_outcome(false, true) == Outcome::Actionable);
    assert!(decide_outcome(false, false) == Outcome::OnTrack);
    assert_eq!(approval_label(Outcome::Validated), "approved");
    assert_eq!(approval_label(Outcome::Actionable), "pending");
    assert_eq!(approval_label(Outcome::OnTrack), "not_applicable");
}

fn node(label: &str, narrative: Option<&str>, evidence: &[&str], children: Vec<NodeText>) -> NodeText {
    NodeText {
        label: label.to_string(),
        narrative: narrative.map(|s| s.to_string()),
        evidence: evidence.iter().map(|s| s.to_string()).collect(),
        children,
    }
}

#[test]
fn scan_text_walks_every_node() {
    let nodes = vec![
        node("A", Some("na"), &["e1", "e2"], vec![node("A1", None, &["x"], vec![])]),
        node("B", None, &[], vec![]),
    ];
    let t = collect_scan_text("Q?", "H", &nodes);
    assert_eq!(t, "Q?\nH\nA\nna\ne1\ne2\nA1\nx\nB\n");
}

#[test]
fn scan_text_of_empty_card() {
    assert_eq!(collect_scan_text("", "", &vec![]), "\n\n");
}
