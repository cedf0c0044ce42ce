//! The decisions of one run of the switcher: what to do with the outcome the picker
//! returned, and how the registry follows. The caller performs the herdr calls.
use vstd::prelude::*;
use crate::herdr::{Herdr, Workspace};
use crate::model::{Kind, Row, RowModel, KindModel, rows_view};
use crate::picker::Outcome;
use crate::registry::Registry;
use crate::sources::{basename, base_name, strs};

verus! {

/// What to do after the picker returned.
#[derive(Debug)]
pub enum Action {
    /// Nothing more: leave the switcher.
    Finish,
    /// Focus this open workspace, then leave.
    Focus(String),
    /// Create a workspace for this directory, bind it, then leave.
    Create(String),
    /// Close this workspace, unbind its directory, and show the switcher again.
    Close { workspace_id: String, dir: String },
    /// Show the switcher again.
    Reopen,
}

pub enum ActionModel {
    Finish,
    Focus(Seq<char>),
    Create(Seq<char>),
    Close { workspace_id: Seq<char>, dir: Seq<char> },
    Reopen,
}

pub open spec fn action_view(a: Action) -> ActionModel {
    match a {
        Action::Finish => ActionModel::Finish,
        Action::Focus(id) => ActionModel::Focus(id@),
        Action::Create(d) => ActionModel::Create(d@),
        Action::Close { workspace_id, dir } => ActionModel::Close { workspace_id: workspace_id@, dir: dir@ },
        Action::Reopen => ActionModel::Reopen,
    }
}

/// The outcome names a row that exists.
pub open spec fn outcome_in(o: Outcome, n: nat) -> bool {
    match o {
        Outcome::Cancel => true,
        Outcome::Jump(i) => i < n,
        Outcome::ForceNew(i) => i < n,
        Outcome::Close(i) => i < n,
    }
}

/// Enter focuses an open project and musters a workspace for a dormant one; Ctrl-N always
/// creates a fresh workspace; Ctrl-X closes an open workspace and reopens the switcher.
pub open spec fn action_of(rows: Seq<RowModel>, o: Outcome) -> ActionModel {
    match o {
        Outcome::Cancel => ActionModel::Finish,
        Outcome::Jump(i) => match rows[i as int].kind {
            KindModel::Open { workspace_id, .. } => ActionModel::Focus(workspace_id),
            KindModel::Dormant => ActionModel::Create(rows[i as int].path),
        },
        Outcome::ForceNew(i) => ActionModel::Create(rows[i as int].path),
        Outcome::Close(i) => match rows[i as int].kind {
            KindModel::Open { workspace_id, .. } => ActionModel::Close {
                workspace_id,
                dir: rows[i as int].path,
            },
            KindModel::Dormant => ActionModel::Reopen,
        },
    }
}

/// What each key of the switcher leads to, by the kind of the selected row: Ctrl-N creates a
/// workspace for the row's directory whatever its kind; Enter focuses an open row's
/// workspace and creates one for a dormant row; Ctrl-X closes an open row's workspace and
/// unbinds its directory, and on a dormant row only reopens the switcher; cancelling
/// finishes.
pub proof fn law_outcome_actions(rows: Seq<RowModel>, i: usize)
    requires
        i < rows.len(),
    ensures
        action_of(rows, Outcome::ForceNew(i)) == ActionModel::Create(rows[i as int].path),
        action_of(rows, Outcome::Cancel) == ActionModel::Finish,
        rows[i as int].kind is Dormant ==> action_of(rows, Outcome::Jump(i)) == ActionModel::Create(
            rows[i as int].path,
        ) && action_of(rows, Outcome::Close(i)) == ActionModel::Reopen,
        rows[i as int].kind is Open ==> action_of(rows, Outcome::Jump(i)) == ActionModel::Focus(
            rows[i as int].kind->Open_workspace_id,
        ) && action_of(rows, Outcome::Close(i)) == (ActionModel::Close {
            workspace_id: rows[i as int].kind->Open_workspace_id,
            dir: rows[i as int].path,
        }),
{
}

pub fn outcome_fits(o: Outcome, n: usize) -> (b: bool)
    ensures
        b == outcome_in(o, n as nat),
{
    match o {
        Outcome::Cancel => true,
        Outcome::Jump(i) => i < n,
        Outcome::ForceNew(i) => i < n,
        Outcome::Close(i) => i < n,
    }
}

/// The action for the picker's outcome on `rows`.
pub fn action_for(rows: &[Row], outcome: Outcome) -> (a: Action)
    requires
        outcome_in(outcome, rows@.len()),
    ensures
        action_view(a) == action_of(rows_view(rows@), outcome),
{
    match outcome {
        Outcome::Cancel => Action::Finish,
        Outcome::Jump(i) => {
            assert(rows_view(rows@)[i as int] == rows@[i as int]@);
            match &rows[i].kind {
                Kind::Open { workspace_id, .. } => Action::Focus(String::from_str(workspace_id.as_str())),
                Kind::Dormant => Action::Create(String::from_str(rows[i].path.as_str())),
            }
        },
        Outcome::ForceNew(i) => {
            assert(rows_view(rows@)[i as int] == rows@[i as int]@);
            Action::Create(String::from_str(rows[i].path.as_str()))
        },
        Outcome::Close(i) => {
            assert(rows_view(rows@)[i as int] == rows@[i as int]@);
            match &rows[i].kind {
                Kind::Open { workspace_id, .. } => Action::Close {
                    workspace_id: String::from_str(workspace_id.as_str()),
                    dir: String::from_str(rows[i].path.as_str()),
                },
                Kind::Dormant => Action::Reopen,
            }
        },
    }
}

/// The ids of the live workspaces, in order.
pub fn live_ids(workspaces: &[Workspace]) -> (ids: Vec<String>)
    ensures
        strs(ids@) == workspaces@.map_values(|w: Workspace| w.workspace_id@),
{
    let mut ids: Vec<String> = Vec::new();
    let mut i: usize = 0;
    while i < workspaces.len()
        invariant
            i <= workspaces@.len(),
            strs(ids@) == workspaces@.take(i as int).map_values(|w: Workspace| w.workspace_id@),
        decreases workspaces@.len() - i,
    {
        let ghost before = ids@;
        ids.push(String::from_str(workspaces[i].workspace_id.as_str()));
        assert(strs(ids@) =~= strs(before).push(workspaces@[i as int].workspace_id@));
        assert(workspaces@.take(i as int + 1).map_values(|w: Workspace| w.workspace_id@)
            =~= workspaces@.take(i as int).map_values(|w: Workspace| w.workspace_id@).push(workspaces@[i as int].workspace_id@));
        i = i + 1;
    }
    assert(workspaces@.take(workspaces@.len() as int) =~= workspaces@);
    ids
}

/// Records what `workspace create` answered for `dir`: a new workspace id is bound to the
/// directory (replacing any earlier binding); an error leaves the registry as it was and is
/// handed back.
pub fn bind_created(reg: &mut Registry, dir: &str, created: Result<String, String>) -> (r: Result<
    (),
    String,
>)
    ensures
        match created {
            Ok(id) => r is Ok && final(reg)@ == old(reg)@.insert(dir@, id@),
            Err(e) => r matches Err(e2) && e2@ == e@ && final(reg)@ == old(reg)@,
        },
{
    match created {
        Ok(id) => {
            reg.bind(dir, id.as_str());
            Ok(())
        },
        Err(e) => Err(e),
    }
}

/// What `workspace create` is asked for a directory: the directory as the new workspace's
/// working directory, and the directory's name as its label.
pub fn create_request(dir: &str) -> (r: (String, String))
    ensures
        r.0@ == dir@,
        r.1@ == base_name(dir@),
{
    (String::from_str(dir), basename(dir))
}

/// Creates a workspace for `dir`, labelled with the directory's name (see `create_request`),
/// and binds it to the directory. When herdr refuses, the registry is unchanged.
pub fn create_and_bind<H: Herdr>(h: &H, reg: &mut Registry, dir: &str) -> (r: Result<(), String>)
    ensures
        r is Ok ==> exists|id: Seq<char>| final(reg)@ == old(reg)@.insert(dir@, id),
        r is Err ==> final(reg)@ == old(reg)@,
{
    let (cwd, label) = create_request(dir);
    let created: Result<String, String> = h.create_workspace(cwd.as_str(), label.as_str());
    bind_created(reg, dir, created)
}

/// What follows an attempt to create a workspace.
#[derive(Debug)]
pub enum AfterCreate {
    /// The workspace exists and is focused: leave the switcher.
    Finish,
    /// herdr refused: show its error in the switcher and stay open.
    ShowError(String),
}

/// A created workspace ends the run; a refused one keeps the switcher open with the error
/// shown.
pub fn after_create(created: Result<(), String>) -> (a: AfterCreate)
    ensures
        match created {
            Ok(_) => a is Finish,
            Err(e) => a matches AfterCreate::ShowError(m) && m@ == e@,
        },
{
    match created {
        Ok(_) => AfterCreate::Finish,
        Err(e) => AfterCreate::ShowError(e),
    }
}

} // verus!
