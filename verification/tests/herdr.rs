use herdr_muster::herdr::{listed_workspace, Pane};

#[test]
fn empty_status_reads_as_unknown() {
    let w = listed_workspace("w6".into(), "/tmp".into(), String::new());
    assert_eq!(w.workspace_id, "w6");
    assert_eq!(w.label, "/tmp");
    assert_eq!(w.agent_status, "unknown");
    let w = listed_workspace("w5".into(), "~".into(), "working".into());
    assert_eq!(w.agent_status, "working");
}

fn pane(id: &str) -> Pane {
    Pane { pane_id: id.into(), workspace_id: "w".into(), cwd: "/".into(), agent: None }
}

#[test]
fn pane_numbers() {
    assert_eq!(pane("w2:p1").number(), 1);
    assert_eq!(pane("w2:p10").number(), 10);
    assert_eq!(pane("w12:p0").number(), 0);
    assert_eq!(pane("w2:px").number(), 0);
    assert_eq!(pane("").number(), 0);
    assert_eq!(pane("p99999999999999999999999").number(), u64::MAX);
}
