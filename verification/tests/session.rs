use herdr_muster::herdr::{Agent, Herdr, Workspace};
use herdr_muster::model::{AgentState, Kind, Row};
use herdr_muster::picker::Outcome;
use herdr_muster::registry::Registry;
use herdr_muster::session::{
    action_for, after_create, bind_created, create_and_bind, create_request, live_ids, outcome_fits, Action,
    AfterCreate,
};
use std::cell::RefCell;

fn rows() -> Vec<Row> {
    vec![
        Row {
            name: "api".into(),
            path: "/dev/api".into(),
            display: "~/dev/api".into(),
            kind: Kind::Open { workspace_id: "w2".into(), state: AgentState::Blocked, agent: None },
        },
        Row { name: "zeta".into(), path: "/dev/zeta".into(), display: "~/dev/zeta".into(), kind: Kind::Dormant },
    ]
}

#[test]
fn actions_for_outcomes() {
    let rs = rows();
    assert!(matches!(action_for(&rs, Outcome::Cancel), Action::Finish));
    assert!(matches!(action_for(&rs, Outcome::Jump(0)), Action::Focus(id) if id == "w2"));
    assert!(matches!(action_for(&rs, Outcome::Jump(1)), Action::Create(d) if d == "/dev/zeta"));
    assert!(matches!(action_for(&rs, Outcome::ForceNew(0)), Action::Create(d) if d == "/dev/api"));
    match action_for(&rs, Outcome::Close(0)) {
        Action::Close { workspace_id, dir } => {
            assert_eq!(workspace_id, "w2");
            assert_eq!(dir, "/dev/api");
        }
        _ => panic!(),
    }
    assert!(matches!(action_for(&rs, Outcome::Close(1)), Action::Reopen));
    assert!(outcome_fits(Outcome::Jump(1), 2));
    assert!(!outcome_fits(Outcome::Close(2), 2));
}

#[test]
fn created_binds_and_error_leaves_registry() {
    let mut reg = Registry::new();
    assert!(bind_created(&mut reg, "/dev/zeta", Ok("w9".into())).is_ok());
    assert_eq!(reg.workspace_for("/dev/zeta").map(String::as_str), Some("w9"));
    let e = bind_created(&mut reg, "/dev/other", Err("boom".into()));
    assert_eq!(e, Err("boom".to_string()));
    assert!(reg.workspace_for("/dev/other").is_none());
}

struct Mock {
    calls: RefCell<Vec<(String, String)>>,
    fail: bool,
}

impl Herdr for Mock {
    fn list_workspaces(&self) -> Result<Vec<Workspace>, String> {
        Ok(Vec::new())
    }
    fn list_agents(&self) -> Result<Vec<Agent>, String> {
        Ok(Vec::new())
    }
    fn create_workspace(&self, cwd: &str, label: &str) -> Result<String, String> {
        self.calls.borrow_mut().push((cwd.to_string(), label.to_string()));
        if self.fail { Err("nope".into()) } else { Ok("w42".into()) }
    }
    fn focus_workspace(&self, _id: &str) -> Result<(), String> {
        Ok(())
    }
    fn close_workspace(&self, _id: &str) -> Result<(), String> {
        Ok(())
    }
    fn close_pane(&self, _id: &str) -> Result<(), String> {
        Ok(())
    }
}

#[test]
fn create_and_bind_labels_with_basename() {
    let h = Mock { calls: RefCell::new(Vec::new()), fail: false };
    let mut reg = Registry::new();
    assert!(create_and_bind(&h, &mut reg, "/dev/zeta").is_ok());
    assert_eq!(h.calls.borrow()[0], ("/dev/zeta".to_string(), "zeta".to_string()));
    assert_eq!(reg.workspace_for("/dev/zeta").map(String::as_str), Some("w42"));
    let bad = Mock { calls: RefCell::new(Vec::new()), fail: true };
    assert!(create_and_bind(&bad, &mut reg, "/dev/x").is_err());
    assert!(reg.workspace_for("/dev/x").is_none());
}

#[test]
fn live_ids_in_order() {
    let ws = vec![
        Workspace { workspace_id: "w5".into(), label: "~".into(), agent_status: "working".into() },
        Workspace { workspace_id: "w6".into(), label: "/tmp".into(), agent_status: "unknown".into() },
    ];
    assert_eq!(live_ids(&ws), vec!["w5".to_string(), "w6".to_string()]);
}

#[test]
fn create_request_and_after_create() {
    assert_eq!(create_request("/dev/zeta"), ("/dev/zeta".to_string(), "zeta".to_string()));
    assert!(matches!(after_create(Ok(())), AfterCreate::Finish));
    assert!(matches!(after_create(Err("boom".into())), AfterCreate::ShowError(e) if e == "boom"));
}
