use vstd::prelude::*;
use crate::text::chars_of;

verus! {

/// A live herdr workspace as `workspace list` reports it.
#[derive(Debug, Clone, PartialEq, Eq)]
pub struct Workspace {
    pub workspace_id: String,
    pub label: String,
    pub agent_status: String,
}

/// An agent as `agent list` reports it, joined to its workspace by id.
#[derive(Debug, Clone, PartialEq, Eq)]
pub struct Agent {
    pub agent: String,
    pub workspace_id: String,
}

/// A pane of a workspace: its id (`w2:p1`), its workspace, the directory it runs in, and the
/// agent in it, if any.
#[derive(Debug, Clone, PartialEq, Eq)]
pub struct Pane {
    pub pane_id: String,
    pub workspace_id: String,
    pub cwd: String,
    pub agent: Option<String>,
}

/// The herdr operations the switcher needs; `CliHerdr` runs the `herdr` binary for them.
pub trait Herdr {
    fn list_workspaces(&self) -> Result<Vec<Workspace>, String>;

    fn list_agents(&self) -> Result<Vec<Agent>, String>;

    fn create_workspace(&self, cwd: &str, label: &str) -> Result<String, String>;

    fn focus_workspace(&self, id: &str) -> Result<(), String>;

    fn close_workspace(&self, id: &str) -> Result<(), String>;

    fn close_pane(&self, id: &str) -> Result<(), String>;
}

/// The status a listing reports, with an empty one read as `unknown`.
pub open spec fn status_or_unknown(s: Seq<char>) -> Seq<char> {
    if s.len() == 0 {
        "unknown"@
    } else {
        s
    }
}

/// A workspace built from the fields of one `workspace list` item; an empty status is
/// `unknown`.
pub fn listed_workspace(workspace_id: String, label: String, agent_status: String) -> (w:
    Workspace)
    ensures
        w.workspace_id@ == workspace_id@,
        w.label@ == label@,
        w.agent_status@ == status_or_unknown(agent_status@),
{
    let status: String = if agent_status.as_str().unicode_len() == 0 {
        String::from_str("unknown")
    } else {
        agent_status
    };
    Workspace { workspace_id, label, agent_status: status }
}

pub open spec fn is_digit(c: char) -> bool {
    '0' <= c && c <= '9'
}

pub open spec fn digit_value(c: char) -> nat {
    (c as int - '0' as int) as nat
}

/// The number that ends `s`: the value of its trailing run of decimal digits, 0 if it ends
/// in something else.
pub open spec fn trailing_number(s: Seq<char>) -> nat
    decreases s.len(),
{
    if s.len() == 0 {
        0
    } else if is_digit(s.last()) {
        trailing_number(s.drop_last()) * 10 + digit_value(s.last())
    } else {
        0
    }
}

/// The number of a pane: the number that ends its id, held at `u64::MAX` when larger.
pub open spec fn pane_number(id: Seq<char>) -> u64 {
    if trailing_number(id) >= u64::MAX {
        u64::MAX
    } else {
        trailing_number(id) as u64
    }
}

impl Pane {
    /// The pane's number within its workspace (`w2:p7` is 7); lower numbers were opened first.
    pub fn number(&self) -> (n: u64)
        ensures
            n == pane_number(self.pane_id@),
    {
        let cs: Vec<char> = chars_of(self.pane_id.as_str());
        let mut acc: u64 = 0;
        let mut i: usize = 0;
        while i < cs.len()
            invariant
                i <= cs@.len(),
                cs@ == self.pane_id@,
                acc == pane_number(cs@.take(i as int)),
            decreases cs@.len() - i,
        {
            let c: char = cs[i];
            let ghost t = trailing_number(cs@.take(i as int));
            assert(cs@.take(i as int + 1).drop_last() =~= cs@.take(i as int));
            if '0' <= c && c <= '9' {
                let d: u64 = (c as u64) - ('0' as u64);
                assert(trailing_number(cs@.take(i as int + 1)) == t * 10 + d);
                if acc > 1844674407370955161 {
                    assert(t >= acc);
                    acc = u64::MAX;
                } else {
                    let m: u64 = acc * 10;
                    if m > u64::MAX - d {
                        acc = u64::MAX;
                    } else {
                        acc = m + d;
                    }
                }
            } else {
                acc = 0;
            }
            i = i + 1;
        }
        assert(cs@.take(cs@.len() as int) =~= cs@);
        acc
    }
}

} // verus!
