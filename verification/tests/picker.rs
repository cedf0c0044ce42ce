use herdr_muster::model::{AgentState, Kind, Row};
use herdr_muster::picker::{
    build, clamp_selection, filter, header_text, indices_fit, on_key, query_fits, searchable_rows, QUERY_LIMIT, row_line, state_color, FuzzyMatcher,
    KeyInput, ListEntry, Outcome, PickerState, StateColor,
};

fn open(name: &str, state: AgentState, agent: Option<&str>) -> Row {
    Row {
        name: name.into(),
        path: format!("/dev/{name}"),
        display: format!("~/dev/{name}"),
        kind: Kind::Open { workspace_id: format!("w-{name}"), state, agent: agent.map(Into::into) },
    }
}

fn dormant(name: &str) -> Row {
    Row { name: name.into(), path: format!("/dev/{name}"), display: format!("~/dev/{name}"), kind: Kind::Dormant }
}

fn rows() -> Vec<Row> {
    vec![open("api", AgentState::Blocked, Some("aider")), open("web", AgentState::Idle, None), dormant("zeta")]
}

#[test]
fn empty_query_keeps_order() {
    let mut m = FuzzyMatcher::new();
    assert_eq!(filter(&rows(), "", &mut m), vec![0, 1, 2]);
}

#[test]
fn query_keeps_only_matches() {
    let mut m = FuzzyMatcher::new();
    assert_eq!(filter(&rows(), "api", &mut m), vec![0]);
    assert_eq!(filter(&rows(), "zeta", &mut m), vec![2]);
    assert!(filter(&rows(), "qqq", &mut m).is_empty());
}

#[test]
fn headers_mark_group_starts() {
    let rs = rows();
    let (items, pos) = build(&rs, &[0, 1, 2], 2, true);
    assert_eq!(
        items,
        vec![
            ListEntry::Header(true),
            ListEntry::Item(0),
            ListEntry::Item(1),
            ListEntry::Header(false),
            ListEntry::Item(2)
        ]
    );
    assert_eq!(pos, 4);
    let (items, pos) = build(&rs, &[2, 0], 1, false);
    assert_eq!(items, vec![ListEntry::Item(2), ListEntry::Item(0)]);
    assert_eq!(pos, 1);
    let (_, pos) = build(&rs, &[], 0, true);
    assert_eq!(pos, 0);
    assert_eq!(header_text(true), "  OPEN");
    assert_eq!(header_text(false), "  PROJECTS");
}

#[test]
fn row_lines() {
    let l = row_line(&open("api", AgentState::Blocked, Some("aider")));
    assert_eq!(l.marker, "● ");
    assert_eq!(l.name, format!("{:<18} ", "api"));
    assert_eq!(l.display, format!("{:<28} ", "~/dev/api"));
    assert_eq!(l.meta, "aider · blocked");
    assert_eq!(l.color, Some(StateColor::Red));
    let l = row_line(&open("web", AgentState::Idle, None));
    assert_eq!(l.meta, "idle");
    let l = row_line(&dormant("zeta"));
    assert_eq!(l.marker, "  ");
    assert_eq!(l.display, "~/dev/zeta");
    assert_eq!(l.meta, "");
    assert_eq!(l.color, None);
    let long = "a-very-long-project-name";
    assert_eq!(row_line(&dormant(long)).name, format!("{long} "));
}

#[test]
fn state_colors() {
    assert_eq!(state_color(AgentState::Blocked), StateColor::Red);
    assert_eq!(state_color(AgentState::Working), StateColor::Cyan);
    assert_eq!(state_color(AgentState::Done), StateColor::Green);
    assert_eq!(state_color(AgentState::Idle), StateColor::DarkGray);
    assert_eq!(state_color(AgentState::Unknown), StateColor::DarkGray);
}

#[test]
fn keys() {
    let rs = rows();
    let f = vec![0, 1, 2];
    let mut st = PickerState { query: String::new(), sel: 0 };
    assert_eq!(on_key(&rs, &f, &mut st, KeyInput::Down), None);
    assert_eq!(st.sel, 1);
    assert_eq!(on_key(&rs, &f, &mut st, KeyInput::Down), None);
    assert_eq!(on_key(&rs, &f, &mut st, KeyInput::Down), None);
    assert_eq!(st.sel, 2);
    assert_eq!(on_key(&rs, &f, &mut st, KeyInput::Char('x', true)), None); // dormant: no close
    assert_eq!(on_key(&rs, &f, &mut st, KeyInput::Char('n', true)), Some(Outcome::ForceNew(2)));
    assert_eq!(on_key(&rs, &f, &mut st, KeyInput::Up), None);
    assert_eq!(st.sel, 1);
    assert_eq!(on_key(&rs, &f, &mut st, KeyInput::Char('x', true)), Some(Outcome::Close(1)));
    assert_eq!(on_key(&rs, &f, &mut st, KeyInput::Enter), Some(Outcome::Jump(1)));
    assert_eq!(on_key(&rs, &f, &mut st, KeyInput::Char('a', false)), None);
    assert_eq!(st.query, "a");
    assert_eq!(st.sel, 0);
    assert_eq!(on_key(&rs, &f, &mut st, KeyInput::Up), None);
    assert_eq!(st.sel, 0);
    assert_eq!(on_key(&rs, &f, &mut st, KeyInput::Backspace), None);
    assert_eq!(st.query, "");
    assert_eq!(on_key(&rs, &f, &mut st, KeyInput::Backspace), None);
    assert_eq!(st.query, "");
    assert_eq!(on_key(&rs, &f, &mut st, KeyInput::Char('q', true)), None);
    assert_eq!(on_key(&rs, &f, &mut st, KeyInput::Other), None);
    assert_eq!(on_key(&rs, &f, &mut st, KeyInput::Esc), Some(Outcome::Cancel));
    assert_eq!(on_key(&rs, &f, &mut st, KeyInput::Char('c', true)), Some(Outcome::Cancel));
    assert_eq!(on_key(&rs, &[], &mut st, KeyInput::Enter), None);
}

#[test]
fn clamping() {
    assert_eq!(clamp_selection(5, 3), 2);
    assert_eq!(clamp_selection(1, 3), 1);
    assert_eq!(clamp_selection(4, 0), 0);
}

#[test]
fn preconditions_checked() {
    assert!(searchable_rows(&rows()));
    assert!(indices_fit(&[0, 2], 3));
    assert!(!indices_fit(&[0, 3], 3));
}

#[test]
fn query_limit() {
    assert!(query_fits("api"));
    assert!(query_fits(&"a".repeat(QUERY_LIMIT)));
    assert!(!query_fits(&"a".repeat(QUERY_LIMIT + 1)));
}
