use herdr_muster::herdr::{Pane, Workspace};
use herdr_muster::model::{assemble, assemble_in, AgentState, Kind};
use herdr_muster::sources::Candidate;

fn ws(id: &str, label: &str, st: &str) -> Workspace {
    Workspace { workspace_id: id.into(), label: label.into(), agent_status: st.into() }
}

fn cand(p: &str) -> Candidate {
    Candidate { path: p.to_string(), display: p.into() }
}

fn pane(id: &str, ws: &str, cwd: &str, agent: Option<&str>) -> Pane {
    Pane { pane_id: id.into(), workspace_id: ws.into(), cwd: cwd.into(), agent: agent.map(Into::into) }
}

#[test]
fn open_from_registry_and_from_pane_cwd_with_sort() {
    // w1 muster-created: binding /dev/web. Its pane has cd'd to /tmp/moved,
    // but the stored identity must win.
    let bound = vec![("/dev/web".to_string(), "w1".to_string())];
    let workspaces = vec![ws("w1", "web", "working"), ws("w2", "api", "blocked")];
    // w2 not bound -> dir inferred from its root (lowest) pane cwd.
    let panes = vec![
        pane("w1:p1", "w1", "/tmp/moved", Some("codex")),
        pane("w2:p2", "w2", "/other", None),
        pane("w2:p1", "w2", "/dev/api", None), // root pane (p1 < p2)
    ];
    // /dev/api is open (w2), so must NOT appear as dormant.
    let dormant = vec![cand("/dev/api"), cand("/dev/zeta"), cand("/dev/alpha")];

    let rows = assemble(&bound, &workspaces, &panes, &dormant);

    // order: blocked(api), working(web), then dormant alpha, zeta
    assert_eq!(rows[0].name, "api");
    assert!(matches!(rows[0].kind, Kind::Open { state: AgentState::Blocked, .. }));
    // binding wins over the pane's moved cwd
    assert_eq!(rows[1].name, "web");
    assert_eq!(rows[1].path, "/dev/web");
    match &rows[1].kind {
        Kind::Open { agent, .. } => assert_eq!(agent.as_deref(), Some("codex")),
        _ => panic!(),
    }
    assert_eq!(rows[2].name, "alpha");
    assert!(matches!(rows[2].kind, Kind::Dormant));
    assert_eq!(rows[3].name, "zeta");
    assert_eq!(rows.len(), 4); // api open, not duplicated as dormant
}

#[test]
fn workspace_without_any_dir_shows_its_label() {
    let workspaces = vec![ws("w7", "scratch", "idle")];
    let rows = assemble_in(&[], &workspaces, &[], &[], None);
    assert_eq!(rows.len(), 1);
    assert_eq!(rows[0].name, "scratch");
    assert_eq!(rows[0].display, "scratch");
    assert_eq!(rows[0].path, "scratch");
    match &rows[0].kind {
        Kind::Open { workspace_id, state, agent } => {
            assert_eq!(workspace_id, "w7");
            assert_eq!(*state, AgentState::Idle);
            assert!(agent.is_none());
        }
        _ => panic!(),
    }
}

#[test]
fn open_rows_rank_by_state_then_name_case_insensitively() {
    let workspaces = vec![
        ws("a", "a", "idle"),
        ws("b", "b", "weird"),
        ws("c", "c", "done"),
        ws("d", "d", "working"),
        ws("e", "e", "blocked"),
        ws("f", "f", "working"),
    ];
    let bound = vec![
        ("/p/Zed".to_string(), "d".to_string()),
        ("/p/alpha".to_string(), "f".to_string()),
        ("/p/one".to_string(), "a".to_string()),
        ("/p/two".to_string(), "b".to_string()),
        ("/p/three".to_string(), "c".to_string()),
        ("/p/four".to_string(), "e".to_string()),
    ];
    let dormant = vec![cand("/q/Beta"), cand("/q/alpha"), cand("/p/one")];
    let rows = assemble_in(&bound, &workspaces, &[], &dormant, None);
    let names: Vec<&str> = rows.iter().map(|r| r.name.as_str()).collect();
    // blocked, working (alpha before Zed though 'Z' < 'a'), done, idle, unknown; then dormant
    assert_eq!(names, vec!["four", "alpha", "Zed", "three", "one", "two", "alpha", "Beta"]);
    assert!(matches!(rows[6].kind, Kind::Dormant));
    assert_eq!(rows[6].path, "/q/alpha");
}

#[test]
fn collapses_home_in_open_rows() {
    let workspaces = vec![ws("w1", "x", "done")];
    let bound = vec![("/home/kim/dev/api".to_string(), "w1".to_string())];
    let rows = assemble_in(&bound, &workspaces, &[], &[], Some("/home/kim"));
    assert_eq!(rows[0].display, "~/dev/api");
    assert_eq!(rows[0].name, "api");
}

#[test]
fn root_pane_is_lowest_numbered_and_carries_agent() {
    let workspaces = vec![ws("w3", "w3", "working")];
    let panes = vec![
        pane("w3:p10", "w3", "/ten", Some("late")),
        pane("w3:p2", "w3", "/two", Some("aider")),
        pane("w4:p1", "w4", "/elsewhere", None),
    ];
    let rows = assemble_in(&[], &workspaces, &panes, &[], None);
    assert_eq!(rows[0].path, "/two");
    match &rows[0].kind {
        Kind::Open { agent, .. } => assert_eq!(agent.as_deref(), Some("aider")),
        _ => panic!(),
    }
}

#[test]
fn state_words_glyphs_and_ranks() {
    for (w, s, r) in [
        ("blocked", AgentState::Blocked, 0u8),
        ("working", AgentState::Working, 1),
        ("done", AgentState::Done, 2),
        ("idle", AgentState::Idle, 3),
        ("unknown", AgentState::Unknown, 4),
    ] {
        assert_eq!(AgentState::from_str(w), s);
        assert_eq!(s.word(), w);
        assert_eq!(s.rank(), r);
    }
    assert_eq!(AgentState::from_str("Blocked"), AgentState::Unknown);
    assert_eq!(AgentState::from_str(""), AgentState::Unknown);
    assert_eq!(AgentState::Blocked.glyph(), "●");
    assert_eq!(AgentState::Working.glyph(), "◐");
    assert_eq!(AgentState::Done.glyph(), "✓");
    assert_eq!(AgentState::Idle.glyph(), "○");
    assert_eq!(AgentState::Unknown.glyph(), "·");
}

#[test]
fn dormant_dropped_when_same_path_as_open() {
    let workspaces = vec![ws("w2", "api", "idle")];
    let bound = vec![("/dev/api".to_string(), "w2".to_string())];
    let dormant = vec![cand("/dev/api/"), cand("/dev//api"), cand("/dev/apix")];
    let rows = assemble_in(&bound, &workspaces, &[], &dormant, None);
    assert_eq!(rows.len(), 2);
    assert_eq!(rows[1].path, "/dev/apix");
}

#[test]
fn equal_keys_keep_input_order() {
    let dormant = vec![cand("/r/x"), cand("/q/X"), cand("/p/x")];
    let rows = assemble_in(&[], &[], &[], &dormant, None);
    let paths: Vec<&str> = rows.iter().map(|r| r.path.as_str()).collect();
    assert_eq!(paths, vec!["/r/x", "/q/X", "/p/x"]);
}
