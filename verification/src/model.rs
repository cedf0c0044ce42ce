use vstd::prelude::*;
use crate::herdr::{Pane, Workspace, pane_number};
use crate::order::{
    insert_by, stable_sort, sorted_by, strict_weak, insert_point, lemma_insert_at, class_of,
    law_sort_stable,
};
use crate::paths::{home_dir, as_opt_str, opt_str_view, opt_view, path_eq, same_path};
use crate::sources::{
    Candidate, basename, base_name, collapse_home_in, collapsed, strs,
};
use crate::text::{
    same_str, chars_of, to_lowercase, lowercase, chars_less, less_chars,
    lemma_chars_less_irreflexive, lemma_chars_less_transitive, lemma_chars_less_total,
};

verus! {

/// What the agent of a workspace is doing, as herdr reports it.
#[derive(Debug, Clone, Copy, PartialEq, Eq, Structural)]
pub enum AgentState {
    Blocked,
    Working,
    Done,
    Idle,
    Unknown,
}

/// The state named by a status word; any word but the four known ones is `Unknown`.
pub open spec fn state_of(s: Seq<char>) -> AgentState {
    if s == "blocked"@ {
        AgentState::Blocked
    } else if s == "working"@ {
        AgentState::Working
    } else if s == "done"@ {
        AgentState::Done
    } else if s == "idle"@ {
        AgentState::Idle
    } else {
        AgentState::Unknown
    }
}

/// How urgent a state is: blocked first, then working, done, idle, unknown.
pub open spec fn rank_of(s: AgentState) -> u8 {
    match s {
        AgentState::Blocked => 0,
        AgentState::Working => 1,
        AgentState::Done => 2,
        AgentState::Idle => 3,
        AgentState::Unknown => 4,
    }
}

/// The word a state is reported and shown as.
pub open spec fn word_of(s: AgentState) -> Seq<char> {
    match s {
        AgentState::Blocked => "blocked"@,
        AgentState::Working => "working"@,
        AgentState::Done => "done"@,
        AgentState::Idle => "idle"@,
        AgentState::Unknown => "unknown"@,
    }
}

/// The glyph shown before an open row.
pub open spec fn glyph_of(s: AgentState) -> Seq<char> {
    match s {
        AgentState::Blocked => "●"@,
        AgentState::Working => "◐"@,
        AgentState::Done => "✓"@,
        AgentState::Idle => "○"@,
        AgentState::Unknown => "·"@,
    }
}

impl AgentState {
    pub fn from_str(s: &str) -> (r: AgentState)
        ensures
            r == state_of(s@),
    {
        if same_str(s, "blocked") {
            AgentState::Blocked
        } else if same_str(s, "working") {
            AgentState::Working
        } else if same_str(s, "done") {
            AgentState::Done
        } else if same_str(s, "idle") {
            AgentState::Idle
        } else {
            AgentState::Unknown
        }
    }

    pub fn rank(&self) -> (r: u8)
        ensures
            r == rank_of(*self),
    {
        match self {
            AgentState::Blocked => 0,
            AgentState::Working => 1,
            AgentState::Done => 2,
            AgentState::Idle => 3,
            AgentState::Unknown => 4,
        }
    }

    pub fn glyph(&self) -> (r: &'static str)
        ensures
            r@ == glyph_of(*self),
    {
        match self {
            AgentState::Blocked => "●",
            AgentState::Working => "◐",
            AgentState::Done => "✓",
            AgentState::Idle => "○",
            AgentState::Unknown => "·",
        }
    }

    pub fn word(&self) -> (r: &'static str)
        ensures
            r@ == word_of(*self),
    {
        match self {
            AgentState::Blocked => "blocked",
            AgentState::Working => "working",
            AgentState::Done => "done",
            AgentState::Idle => "idle",
            AgentState::Unknown => "unknown",
        }
    }
}

/// Reading back the word of a state gives the state: `from_str(word())` is the identity.
pub proof fn law_word_round_trip(s: AgentState)
    ensures
        state_of(word_of(s)) == s,
{
    reveal_strlit("blocked");
    reveal_strlit("working");
    reveal_strlit("done");
    reveal_strlit("idle");
    reveal_strlit("unknown");
    assert("blocked"@[0] == 'b' && "working"@[0] == 'w' && "done"@[0] == 'd');
    assert("idle"@[0] == 'i' && "unknown"@[0] == 'u');
}

/// Blocked ranks before working, working before done, done before idle, idle before
/// unknown; distinct states rank apart.
pub proof fn law_rank_order(a: AgentState, b: AgentState)
    ensures
        rank_of(AgentState::Blocked) < rank_of(AgentState::Working),
        rank_of(AgentState::Working) < rank_of(AgentState::Done),
        rank_of(AgentState::Done) < rank_of(AgentState::Idle),
        rank_of(AgentState::Idle) < rank_of(AgentState::Unknown),
        rank_of(a) == rank_of(b) ==> a == b,
{
}

/// What a row stands for: a live workspace, or a project with none.
#[derive(Debug)]
pub enum Kind {
    Open { workspace_id: String, state: AgentState, agent: Option<String> },
    Dormant,
}

/// One line of the switcher.
#[derive(Debug)]
pub struct Row {
    pub name: String,
    pub path: String,
    pub display: String,
    pub kind: Kind,
}

pub enum KindModel {
    Open { workspace_id: Seq<char>, state: AgentState, agent: Option<Seq<char>> },
    Dormant,
}

pub struct RowModel {
    pub name: Seq<char>,
    pub path: Seq<char>,
    pub display: Seq<char>,
    pub kind: KindModel,
}

impl View for Kind {
    type V = KindModel;

    open spec fn view(&self) -> KindModel {
        match self {
            Kind::Open { workspace_id, state, agent } => KindModel::Open {
                workspace_id: workspace_id@,
                state: *state,
                agent: opt_view(*agent),
            },
            Kind::Dormant => KindModel::Dormant,
        }
    }
}

impl View for Row {
    type V = RowModel;

    open spec fn view(&self) -> RowModel {
        RowModel { name: self.name@, path: self.path@, display: self.display@, kind: self.kind@ }
    }
}

pub open spec fn rows_view(v: Seq<Row>) -> Seq<RowModel> {
    v.map_values(|r: Row| r@)
}

/// Open rows come first (0), then dormant ones (1).
pub open spec fn group_of(k: KindModel) -> int {
    match k {
        KindModel::Open { .. } => 0,
        KindModel::Dormant => 1,
    }
}

/// Within the open rows, the rank of the agent's state; dormant rows all rank alike.
pub open spec fn rank_in_group(k: KindModel) -> int {
    match k {
        KindModel::Open { state, .. } => rank_of(state) as int,
        KindModel::Dormant => 0,
    }
}

/// What rows are ordered by: group, then state rank, then the lowercased name.
pub open spec fn row_key(r: RowModel) -> (int, int, Seq<char>) {
    (group_of(r.kind), rank_in_group(r.kind), lowercase(r.name))
}

pub open spec fn key_less(a: (int, int, Seq<char>), b: (int, int, Seq<char>)) -> bool {
    a.0 < b.0 || (a.0 == b.0 && (a.1 < b.1 || (a.1 == b.1 && chars_less(a.2, b.2))))
}

pub open spec fn row_less(a: RowModel, b: RowModel) -> bool {
    key_less(row_key(a), row_key(b))
}

/// The order of the switcher's rows.
pub open spec fn row_order() -> spec_fn(RowModel, RowModel) -> bool {
    |a: RowModel, b: RowModel| row_less(a, b)
}

proof fn lemma_key_less_asymmetric(a: (int, int, Seq<char>), b: (int, int, Seq<char>))
    ensures
        key_less(a, b) ==> !key_less(b, a),
{
    if key_less(a, b) && key_less(b, a) {
        lemma_chars_less_transitive(a.2, b.2, a.2);
        lemma_chars_less_irreflexive(a.2);
    }
}

proof fn lemma_key_less_negative_transitive(
    a: (int, int, Seq<char>),
    b: (int, int, Seq<char>),
    c: (int, int, Seq<char>),
)
    ensures
        !key_less(b, a) && !key_less(c, b) ==> !key_less(c, a),
{
    lemma_chars_less_total(a.2, b.2);
    lemma_chars_less_total(b.2, c.2);
    lemma_chars_less_total(a.2, c.2);
    if chars_less(c.2, a.2) && !chars_less(b.2, a.2) && !chars_less(c.2, b.2) {
        // a.2 <= b.2 <= c.2 < a.2 is impossible
        if a.2 != b.2 {
            lemma_chars_less_transitive(c.2, a.2, b.2);
        }
        if b.2 != c.2 && a.2 == b.2 {
            lemma_chars_less_transitive(b.2, c.2, a.2);
            lemma_chars_less_irreflexive(a.2);
        }
        if a.2 == b.2 && b.2 == c.2 {
            lemma_chars_less_irreflexive(a.2);
        }
    }
}

/// The row order is a strict weak order, so sorting by it is well behaved.
pub proof fn lemma_row_order_strict_weak()
    ensures
        strict_weak(row_order()),
{
    assert forall|a: RowModel, b: RowModel| #[trigger] row_order()(a, b) implies !row_order()(
        b,
        a,
    ) by {
        lemma_key_less_asymmetric(row_key(a), row_key(b));
    }
    assert forall|a: RowModel, b: RowModel, c: RowModel|
        #![trigger row_order()(b, a), row_order()(c, b)]
        !row_order()(b, a) && !row_order()(c, b) implies !row_order()(c, a) by {
        lemma_key_less_negative_transitive(row_key(a), row_key(b), row_key(c));
    }
}

/// The directory the registry binds to workspace `id`: that of the last binding naming it.
pub open spec fn bound_dir(bound: Seq<(String, String)>, id: Seq<char>) -> Option<Seq<char>>
    decreases bound.len(),
{
    if bound.len() == 0 {
        None
    } else if bound.last().1@ == id {
        Some(bound.last().0@)
    } else {
        bound_dir(bound.drop_last(), id)
    }
}

/// Pane `i` is the root pane of workspace `id`: the lowest-numbered of its panes, the first
/// of them where several share that number.
pub open spec fn is_root_pane(panes: Seq<Pane>, id: Seq<char>, i: int) -> bool {
    &&& 0 <= i < panes.len()
    &&& panes[i].workspace_id@ == id
    &&& forall|k: int|
        0 <= k < panes.len() && #[trigger] panes[k].workspace_id@ == id ==> pane_number(
            panes[i].pane_id@,
        ) <= pane_number(panes[k].pane_id@)
    &&& forall|k: int|
        0 <= k < i && #[trigger] panes[k].workspace_id@ == id ==> pane_number(panes[i].pane_id@)
            < pane_number(panes[k].pane_id@)
}

/// The root pane of workspace `id`, if it has any pane.
pub open spec fn root_pane(panes: Seq<Pane>, id: Seq<char>) -> Option<int> {
    if exists|i: int| is_root_pane(panes, id, i) {
        Some(choose|i: int| is_root_pane(panes, id, i))
    } else {
        None
    }
}

pub proof fn lemma_root_pane_unique(panes: Seq<Pane>, id: Seq<char>, i: int, j: int)
    requires
        is_root_pane(panes, id, i),
        is_root_pane(panes, id, j),
    ensures
        i == j,
{
    if i < j {
        assert(panes[i].workspace_id@ == id);
    } else if j < i {
        assert(panes[j].workspace_id@ == id);
    }
}

/// The directory that identifies workspace `w`: its registry binding first, then the
/// directory of its root pane.
pub open spec fn open_dir(bound: Seq<(String, String)>, panes: Seq<Pane>, w: Workspace) -> Option<
    Seq<char>,
> {
    match bound_dir(bound, w.workspace_id@) {
        Some(d) => Some(d),
        None => match root_pane(panes, w.workspace_id@) {
            Some(i) => Some(panes[i].cwd@),
            None => None,
        },
    }
}

/// The open row of workspace `w`. Without a known directory the workspace's label stands in
/// for name, display and path, so the workspace can still be reached.
pub open spec fn open_row(
    bound: Seq<(String, String)>,
    panes: Seq<Pane>,
    home: Option<Seq<char>>,
    w: Workspace,
) -> RowModel {
    let agent = match root_pane(panes, w.workspace_id@) {
        Some(i) => opt_view(panes[i].agent),
        None => None,
    };
    let kind = KindModel::Open {
        workspace_id: w.workspace_id@,
        state: state_of(w.agent_status@),
        agent,
    };
    match open_dir(bound, panes, w) {
        Some(d) => RowModel { name: base_name(d), display: collapsed(d, home), path: d, kind },
        None => RowModel { name: w.label@, display: w.label@, path: w.label@, kind },
    }
}

/// One open row per workspace, in the order of the workspaces.
pub open spec fn open_rows(
    bound: Seq<(String, String)>,
    panes: Seq<Pane>,
    home: Option<Seq<char>>,
    workspaces: Seq<Workspace>,
) -> Seq<RowModel> {
    workspaces.map_values(|w: Workspace| open_row(bound, panes, home, w))
}

pub open spec fn paths_of(rows: Seq<RowModel>) -> Seq<Seq<char>> {
    rows.map_values(|r: RowModel| r.path)
}

pub open spec fn dormant_row(c: Candidate) -> RowModel {
    RowModel {
        name: base_name(c.path@),
        display: c.display@,
        path: c.path@,
        kind: KindModel::Dormant,
    }
}

/// Some path of `paths` is the same path as `q`.
pub open spec fn has_same_path(paths: Seq<Seq<char>>, q: Seq<char>) -> bool {
    exists|k: int| 0 <= k < paths.len() && same_path(#[trigger] paths[k], q)
}

/// A dormant row for each candidate whose directory is not already open, directories being
/// compared as paths.
pub open spec fn dormant_rows(open_paths: Seq<Seq<char>>, dormant: Seq<Candidate>) -> Seq<RowModel>
    decreases dormant.len(),
{
    if dormant.len() == 0 {
        Seq::empty()
    } else {
        let prev = dormant_rows(open_paths, dormant.drop_last());
        if has_same_path(open_paths, dormant.last().path@) {
            prev
        } else {
            prev.push(dormant_row(dormant.last()))
        }
    }
}

/// The rows before sorting: the open rows, then the dormant ones.
pub open spec fn unsorted_rows(
    bound: Seq<(String, String)>,
    workspaces: Seq<Workspace>,
    panes: Seq<Pane>,
    dormant: Seq<Candidate>,
    home: Option<Seq<char>>,
) -> Seq<RowModel> {
    let opens = open_rows(bound, panes, home, workspaces);
    opens + dormant_rows(paths_of(opens), dormant)
}

/// The switcher's rows: the unsorted rows in the row order, rows that compare equal keeping
/// their order.
pub open spec fn assembled(
    bound: Seq<(String, String)>,
    workspaces: Seq<Workspace>,
    panes: Seq<Pane>,
    dormant: Seq<Candidate>,
    home: Option<Seq<char>>,
) -> Seq<RowModel> {
    stable_sort(unsorted_rows(bound, workspaces, panes, dormant, home), row_order())
}

fn any_same_path(paths: &[String], q: &str) -> (r: bool)
    ensures
        r == has_same_path(strs(paths@), q@),
{
    let mut i: usize = 0;
    while i < paths.len()
        invariant
            i <= paths@.len(),
            forall|k: int| 0 <= k < i ==> !same_path(#[trigger] strs(paths@)[k], q@),
        decreases paths@.len() - i,
    {
        if path_eq(paths[i].as_str(), q) {
            assert(same_path(strs(paths@)[i as int], q@));
            return true;
        }
        i = i + 1;
    }
    false
}

fn bound_index(bound: &[(String, String)], id: &str) -> (r: Option<usize>)
    ensures
        match r {
            Some(k) => k < bound@.len() && bound_dir(bound@, id@) == Some(bound@[k as int].0@),
            None => bound_dir(bound@, id@) is None,
        },
{
    let mut i: usize = bound.len();
    assert(bound@.take(i as int) =~= bound@);
    while i > 0
        invariant
            i <= bound@.len(),
            bound_dir(bound@, id@) == bound_dir(bound@.take(i as int), id@),
        decreases i,
    {
        assert(bound@.take(i as int).drop_last() =~= bound@.take(i - 1));
        if same_str(bound[i - 1].1.as_str(), id) {
            return Some(i - 1);
        }
        i = i - 1;
    }
    None
}

fn root_pane_index(panes: &[Pane], id: &str) -> (r: Option<usize>)
    ensures
        match r {
            Some(k) => root_pane(panes@, id@) == Some(k as int),
            None => root_pane(panes@, id@) is None,
        },
{
    let mut best: Option<usize> = None;
    let mut best_num: u64 = 0;
    let mut i: usize = 0;
    while i < panes.len()
        invariant
            i <= panes@.len(),
            match best {
                Some(b) => {
                    &&& b < i
                    &&& best_num == pane_number(panes@[b as int].pane_id@)
                    &&& panes@[b as int].workspace_id@ == id@
                    &&& forall|k: int|
                        0 <= k < i && #[trigger] panes@[k].workspace_id@ == id@ ==> best_num
                            <= pane_number(panes@[k].pane_id@)
                    &&& forall|k: int|
                        0 <= k < b && #[trigger] panes@[k].workspace_id@ == id@ ==> best_num
                            < pane_number(panes@[k].pane_id@)
                },
                None => forall|k: int| 0 <= k < i ==> #[trigger] panes@[k].workspace_id@ != id@,
            },
        decreases panes@.len() - i,
    {
        if same_str(panes[i].workspace_id.as_str(), id) {
            let n: u64 = panes[i].number();
            match best {
                Some(_) => {
                    if n < best_num {
                        best = Some(i);
                        best_num = n;
                    }
                },
                None => {
                    best = Some(i);
                    best_num = n;
                },
            }
        }
        i = i + 1;
    }
    match best {
        Some(b) => {
            assert(is_root_pane(panes@, id@, b as int));
            proof {
                let c = choose|j: int| is_root_pane(panes@, id@, j);
                lemma_root_pane_unique(panes@, id@, c, b as int);
            }
        },
        None => {
            assert forall|j: int| !is_root_pane(panes@, id@, j) by {
                if 0 <= j < panes@.len() {
                    assert(panes@[j].workspace_id@ != id@);
                }
            }
        },
    }
    best
}

fn clone_opt(o: &Option<String>) -> (r: Option<String>)
    ensures
        opt_view(r) == opt_view(*o),
{
    match o {
        Some(s) => Some(String::from_str(s.as_str())),
        None => None,
    }
}

fn open_row_of(bound: &[(String, String)], panes: &[Pane], home: Option<&str>, w: &Workspace) -> (r:
    Row)
    ensures
        r@ == open_row(bound@, panes@, opt_str_view(home), *w),
{
    let id: &str = w.workspace_id.as_str();
    let root: Option<usize> = root_pane_index(panes, id);
    let agent: Option<String> = match root {
        Some(i) => clone_opt(&panes[i].agent),
        None => None,
    };
    let state: AgentState = AgentState::from_str(w.agent_status.as_str());
    let kind = Kind::Open { workspace_id: String::from_str(id), state, agent };
    let dir: Option<String> = match bound_index(bound, id) {
        Some(k) => Some(String::from_str(bound[k].0.as_str())),
        None => match root {
            Some(i) => Some(String::from_str(panes[i].cwd.as_str())),
            None => None,
        },
    };
    assert(opt_view(dir) == open_dir(bound@, panes@, *w));
    match dir {
        Some(d) => Row {
            name: basename(d.as_str()),
            display: collapse_home_in(d.as_str(), home),
            path: d,
            kind,
        },
        None => Row {
            name: String::from_str(w.label.as_str()),
            display: String::from_str(w.label.as_str()),
            path: String::from_str(w.label.as_str()),
            kind,
        },
    }
}

/// A row's sort key, computed once.
struct SortKey {
    group: u8,
    rank: u8,
    name: Vec<char>,
}

spec fn key_view(k: SortKey) -> (int, int, Seq<char>) {
    (k.group as int, k.rank as int, k.name@)
}

/// The key a row is sorted by: group (open before dormant), state rank, lowercased name.
fn sort_key(r: &Row) -> (k: SortKey)
    ensures
        key_view(k) == row_key(r@),
{
    let name: Vec<char> = chars_of(to_lowercase(r.name.as_str()).as_str());
    match &r.kind {
        Kind::Open { state, .. } => SortKey { group: 0, rank: state.rank(), name },
        Kind::Dormant => SortKey { group: 1, rank: 0, name },
    }
}

fn key_before(a: &SortKey, b: &SortKey) -> (r: bool)
    ensures
        r == key_less(key_view(*a), key_view(*b)),
{
    if a.group != b.group {
        return a.group < b.group;
    }
    if a.rank != b.rank {
        return a.rank < b.rank;
    }
    less_chars(a.name.as_slice(), b.name.as_slice())
}

spec fn keys_match(rows: Seq<Row>, keys: Seq<SortKey>) -> bool {
    &&& rows.len() == keys.len()
    &&& forall|k: int| 0 <= k < rows.len() ==> key_view(#[trigger] keys[k]) == row_key(rows[k]@)
}

/// Places `row` into the sorted `out`, after every row that does not sort after it.
fn insert_row(out: &mut Vec<Row>, keys: &mut Vec<SortKey>, row: Row)
    requires
        keys_match(old(out)@, old(keys)@),
    ensures
        keys_match(final(out)@, final(keys)@),
        rows_view(final(out)@) == insert_by(rows_view(old(out)@), row@, row_order()),
{
    let key: SortKey = sort_key(&row);
    let mut j: usize = out.len();
    while j > 0 && key_before(&key, &keys[j - 1])
        invariant
            j <= out@.len(),
            keys_match(out@, keys@),
            key_view(key) == row_key(row@),
            forall|k: int| j <= k < out@.len() ==> row_less(row@, #[trigger] out@[k]@),
        decreases j,
    {
        j = j - 1;
    }
    let ghost before = rows_view(out@);
    proof {
        assert(insert_point(before, row@, row_order(), j as int));
        lemma_insert_at(before, row@, row_order(), j as int);
    }
    out.insert(j, row);
    keys.insert(j, key);
    assert(rows_view(out@) =~= before.insert(j as int, row@));
    assert forall|k: int| 0 <= k < out@.len() implies key_view(#[trigger] keys@[k]) == row_key(out@[k]@) by {
        if k > j {
            assert(keys@[k] == old(keys)@[k - 1]);
        }
    }
}

/// The switcher's rows, with `home` written as `~` in the displayed directories.
///
/// `panes` carry their directories as the caller resolved them on disk.
pub fn assemble_in(
    bound: &[(String, String)],
    workspaces: &[Workspace],
    panes: &[Pane],
    dormant: &[Candidate],
    home: Option<&str>,
) -> (rows: Vec<Row>)
    ensures
        rows_view(rows@) == assembled(bound@, workspaces@, panes@, dormant@, opt_str_view(home)),
{
    let ghost h = opt_str_view(home);
    let mut out: Vec<Row> = Vec::new();
    let mut keys: Vec<SortKey> = Vec::new();
    let mut open_paths: Vec<String> = Vec::new();
    let ghost mut made: Seq<RowModel> = Seq::empty();
    let mut i: usize = 0;
    while i < workspaces.len()
        invariant
            i <= workspaces@.len(),
            keys_match(out@, keys@),
            h == opt_str_view(home),
            made == open_rows(bound@, panes@, h, workspaces@.take(i as int)),
            rows_view(out@) == stable_sort(made, row_order()),
            strs(open_paths@) == paths_of(made),
        decreases workspaces@.len() - i,
    {
        let w: &Workspace = &workspaces[i];
        assert(*w == workspaces@[i as int]);
        let row: Row = open_row_of(bound, panes, home, w);
        assert(row@ == open_row(bound@, panes@, h, *w));
        let ghost before = open_paths@;
        assert(made.len() == i);
        assert(strs(before).len() == before.len());
        open_paths.push(String::from_str(row.path.as_str()));
        proof {
            assert(made.push(row@).drop_last() =~= made);
            assert(workspaces@.take(i as int + 1) =~= workspaces@.take(i as int).push(workspaces@[i as int]));
            assert(row@ == open_row(bound@, panes@, h, workspaces@[i as int]));
            let t1 = workspaces@.take(i as int + 1);
            assert forall|k: int| 0 <= k < t1.len() implies #[trigger] open_rows(bound@, panes@, h, t1)[k]
                == made.push(row@)[k] by {
                if k < i {
                    assert(t1[k] == workspaces@.take(i as int)[k]);
                }
            }
            assert(open_rows(bound@, panes@, h, t1) =~= made.push(row@));
            assert(row.path@ == row@.path);
            assert forall|k: int| 0 <= k < open_paths@.len() implies #[trigger] strs(open_paths@)[k]
                == paths_of(made.push(row@))[k] by {
                if k < i {
                    assert(open_paths@[k] == before[k]);
                    assert(strs(before)[k] == paths_of(made)[k]);
                }
            }
            assert(strs(open_paths@) =~= paths_of(made.push(row@)));
        }
        insert_row(&mut out, &mut keys, row);
        proof {
            made = made.push(row@);
        }
        i = i + 1;
    }
    assert(workspaces@.take(workspaces@.len() as int) =~= workspaces@);
    let ghost opens = made;
    let mut j: usize = 0;
    while j < dormant.len()
        invariant
            j <= dormant@.len(),
            keys_match(out@, keys@),
            h == opt_str_view(home),
            opens == open_rows(bound@, panes@, h, workspaces@),
            strs(open_paths@) == paths_of(opens),
            made == opens + dormant_rows(paths_of(opens), dormant@.take(j as int)),
            rows_view(out@) == stable_sort(made, row_order()),
        decreases dormant@.len() - j,
    {
        let c: &Candidate = &dormant[j];
        assert(dormant@.take(j as int + 1).drop_last() =~= dormant@.take(j as int));
        if !any_same_path(&open_paths, c.path.as_str()) {
            let row = Row {
                name: basename(c.path.as_str()),
                display: String::from_str(c.display.as_str()),
                path: String::from_str(c.path.as_str()),
                kind: Kind::Dormant,
            };
            proof {
                assert(made.push(row@).drop_last() =~= made);
                assert(opens + dormant_rows(paths_of(opens), dormant@.take(j as int + 1)) =~= made.push(row@));
            }
            insert_row(&mut out, &mut keys, row);
            proof {
                made = made.push(row@);
            }
        }
        j = j + 1;
    }
    assert(dormant@.take(dormant@.len() as int) =~= dormant@);
    out
}

/// The switcher's rows: one open row per live workspace, identified by its registry binding
/// (`bound`, directory to workspace id) or else by the directory of its root pane; then a
/// dormant row for each candidate whose directory is not open; sorted open before dormant,
/// open rows by state rank, each group by lowercased name. The home directory shown as `~`
/// is whatever the environment gave.
pub fn assemble(
    bound: &[(String, String)],
    workspaces: &[Workspace],
    panes: &[Pane],
    dormant: &[Candidate],
) -> (rows: Vec<Row>)
    ensures
        exists|home: Option<Seq<char>>|
            rows_view(rows@) == assembled(bound@, workspaces@, panes@, dormant@, home),
{
    let home: Option<String> = home_dir();
    assemble_in(bound, workspaces, panes, dormant, as_opt_str(&home))
}

pub open spec fn is_open(r: RowModel) -> bool {
    r.kind is Open
}

/// How many rows are open rows.
pub open spec fn count_open(s: Seq<RowModel>) -> nat
    decreases s.len(),
{
    if s.len() == 0 {
        0
    } else {
        count_open(s.drop_last()) + if is_open(s.last()) {
            1nat
        } else {
            0nat
        }
    }
}

proof fn lemma_count_open_insert(s: Seq<RowModel>, x: RowModel)
    ensures
        count_open(insert_by(s, x, row_order())) == count_open(s) + if is_open(x) {
            1nat
        } else {
            0nat
        },
    decreases s.len(),
{
    if s.len() > 0 && row_order()(x, s.last()) {
        lemma_count_open_insert(s.drop_last(), x);
        assert(insert_by(s.drop_last(), x, row_order()).push(s.last()).drop_last() =~= insert_by(
            s.drop_last(),
            x,
            row_order(),
        ));
    } else if s.len() > 0 {
        assert(s.push(x).drop_last() =~= s);
    } else {
        assert(seq![x].drop_last() =~= s);
    }
}

proof fn lemma_count_open_sort(s: Seq<RowModel>)
    ensures
        count_open(stable_sort(s, row_order())) == count_open(s),
    decreases s.len(),
{
    if s.len() > 0 {
        lemma_count_open_sort(s.drop_last());
        lemma_count_open_insert(stable_sort(s.drop_last(), row_order()), s.last());
    }
}

proof fn lemma_count_open_concat(a: Seq<RowModel>, b: Seq<RowModel>)
    ensures
        count_open(a + b) == count_open(a) + count_open(b),
    decreases b.len(),
{
    if b.len() == 0 {
        assert(a + b =~= a);
    } else {
        lemma_count_open_concat(a, b.drop_last());
        assert((a + b).drop_last() =~= a + b.drop_last());
    }
}

proof fn lemma_count_open_all(s: Seq<RowModel>)
    requires
        forall|i: int| 0 <= i < s.len() ==> is_open(#[trigger] s[i]),
    ensures
        count_open(s) == s.len(),
    decreases s.len(),
{
    if s.len() > 0 {
        lemma_count_open_all(s.drop_last());
    }
}

proof fn lemma_count_open_none(s: Seq<RowModel>)
    requires
        forall|i: int| 0 <= i < s.len() ==> !is_open(#[trigger] s[i]),
    ensures
        count_open(s) == 0,
    decreases s.len(),
{
    if s.len() > 0 {
        lemma_count_open_none(s.drop_last());
    }
}

proof fn lemma_count_open_le(s: Seq<RowModel>)
    ensures
        count_open(s) <= s.len(),
    decreases s.len(),
{
    if s.len() > 0 {
        lemma_count_open_le(s.drop_last());
    }
}

/// In a sequence where no dormant row comes before an open one, the open rows are exactly
/// the first `count_open` rows.
proof fn lemma_open_prefix(s: Seq<RowModel>)
    requires
        forall|i: int, j: int|
            0 <= i < j < s.len() && is_open(#[trigger] s[j]) ==> is_open(#[trigger] s[i]),
    ensures
        forall|i: int| 0 <= i < s.len() ==> (is_open(#[trigger] s[i]) <==> i < count_open(s)),
    decreases s.len(),
{
    if s.len() > 0 {
        let t = s.drop_last();
        assert forall|i: int, j: int|
            0 <= i < j < t.len() && is_open(#[trigger] t[j]) implies is_open(#[trigger] t[i]) by {
            assert(t[j] == s[j] && t[i] == s[i]);
        }
        lemma_open_prefix(t);
        lemma_count_open_le(t);
        if is_open(s.last()) {
            assert forall|i: int| 0 <= i < t.len() implies is_open(#[trigger] t[i]) by {
                assert(is_open(s[i]));
            }
            lemma_count_open_all(t);
        }
        assert forall|i: int| 0 <= i < s.len() implies (is_open(#[trigger] s[i]) <==> i
            < count_open(s)) by {
            if i < t.len() {
                assert(s[i] == t[i]);
            }
        }
    }
}

proof fn lemma_dormant_rows_complete(open_paths: Seq<Seq<char>>, dormant: Seq<Candidate>, c: Candidate)
    requires
        dormant.contains(c),
        forall|k: int| 0 <= k < open_paths.len() ==> !same_path(#[trigger] open_paths[k], c.path@),
    ensures
        dormant_rows(open_paths, dormant).contains(dormant_row(c)),
    decreases dormant.len(),
{
    let t = dormant.drop_last();
    let prev = dormant_rows(open_paths, t);
    if dormant.last() == c {
        assert(!has_same_path(open_paths, c.path@));
        assert(dormant_rows(open_paths, dormant)[prev.len() as int] == dormant_row(c));
    } else {
        let i = choose|i: int| 0 <= i < dormant.len() && dormant[i] == c;
        assert(i < t.len());
        assert(t[i] == c);
        assert(t.contains(c));
        lemma_dormant_rows_complete(open_paths, t, c);
        let m = choose|m: int| 0 <= m < prev.len() && prev[m] == dormant_row(c);
        assert(dormant_rows(open_paths, dormant)[m] == dormant_row(c));
    }
}

/// A candidate is kept out only when its directory is an open one: every candidate whose
/// directory is not the same path as the directory of any live workspace's row is listed,
/// as a dormant row.
pub proof fn law_dormant_complete(
    bound: Seq<(String, String)>,
    workspaces: Seq<Workspace>,
    panes: Seq<Pane>,
    dormant: Seq<Candidate>,
    home: Option<Seq<char>>,
    c: Candidate,
)
    requires
        dormant.contains(c),
        forall|k: int|
            0 <= k < workspaces.len() ==> !same_path(
                open_row(bound, panes, home, #[trigger] workspaces[k]).path,
                c.path@,
            ),
    ensures
        assembled(bound, workspaces, panes, dormant, home).contains(dormant_row(c)),
{
    broadcast use vstd::seq_lib::to_multiset_contains;
    let opens = open_rows(bound, panes, home, workspaces);
    let ps = paths_of(opens);
    assert forall|k: int| 0 <= k < ps.len() implies !same_path(#[trigger] ps[k], c.path@) by {
        assert(ps[k] == open_row(bound, panes, home, workspaces[k]).path);
    }
    lemma_dormant_rows_complete(ps, dormant, c);
    let ds = dormant_rows(ps, dormant);
    let u = unsorted_rows(bound, workspaces, panes, dormant, home);
    let m = choose|m: int| 0 <= m < ds.len() && ds[m] == dormant_row(c);
    assert(u[opens.len() + m] == dormant_row(c));
    assert(u.contains(dormant_row(c)));
    assert(u.to_multiset().count(dormant_row(c)) > 0);
    crate::order::lemma_sort_multiset(u, row_order());
    assert(assembled(bound, workspaces, panes, dormant, home).to_multiset().count(dormant_row(c)) > 0);
}

/// Every dormant row stands for a candidate whose directory is not among `open_paths`.
pub proof fn lemma_dormant_rows_origin(open_paths: Seq<Seq<char>>, dormant: Seq<Candidate>)
    ensures
        forall|i: int|
            #![trigger dormant_rows(open_paths, dormant)[i]]
            0 <= i < dormant_rows(open_paths, dormant).len() ==> exists|c: Candidate|
                #![trigger dormant.contains(c)]
                dormant.contains(c) && !has_same_path(open_paths, c.path@) && dormant_rows(
                    open_paths,
                    dormant,
                )[i] == dormant_row(c),
    decreases dormant.len(),
{
    if dormant.len() > 0 {
        let t = dormant.drop_last();
        lemma_dormant_rows_origin(open_paths, t);
        let d = dormant_rows(open_paths, dormant);
        assert forall|i: int| #![trigger d[i]] 0 <= i < d.len() implies exists|c: Candidate|
            #![trigger dormant.contains(c)]
            dormant.contains(c) && !has_same_path(open_paths, c.path@) && d[i] == dormant_row(c) by {
            if i < dormant_rows(open_paths, t).len() {
                let c = choose|c: Candidate|
                    #![trigger t.contains(c)]
                    t.contains(c) && !has_same_path(open_paths, c.path@) && dormant_rows(open_paths, t)[i]
                        == dormant_row(c);
                let k = choose|k: int| 0 <= k < t.len() && t[k] == c;
                assert(dormant[k] == c);
                assert(dormant.contains(c));
            } else {
                assert(dormant[dormant.len() - 1] == dormant.last());
                assert(dormant.contains(dormant.last()));
            }
        }
    }
}

/// The rows as assembled, laid out: open rows first, exactly one per live workspace, in
/// the order of state rank and then name; then the dormant rows, none of which repeats the
/// directory of an open row.
pub proof fn lemma_assembled_layout(
    bound: Seq<(String, String)>,
    workspaces: Seq<Workspace>,
    panes: Seq<Pane>,
    dormant: Seq<Candidate>,
    home: Option<Seq<char>>,
)
    ensures
        ({
            let rows = assembled(bound, workspaces, panes, dormant, home);
            let opens = open_rows(bound, panes, home, workspaces);
            &&& sorted_by(rows, row_order())
            &&& rows.to_multiset() == unsorted_rows(
                bound,
                workspaces,
                panes,
                dormant,
                home,
            ).to_multiset()
            &&& forall|i: int| 0 <= i < rows.len() ==> (is_open(#[trigger] rows[i]) <==> i < workspaces.len())
            &&& forall|k: int|
                0 <= k < workspaces.len() ==> rows.contains(
                    open_row(bound, panes, home, #[trigger] workspaces[k]),
                )
            &&& forall|i: int|
                0 <= i < rows.len() && !is_open(#[trigger] rows[i]) ==> exists|c: Candidate|
                    #![trigger dormant.contains(c)]
                    dormant.contains(c) && !has_same_path(paths_of(opens), c.path@) && rows[i]
                        == dormant_row(c)
            &&& forall|i: int, j: int|
                0 <= i < rows.len() && 0 <= j < rows.len() && is_open(#[trigger] rows[i])
                    && !is_open(#[trigger] rows[j]) ==> !same_path(rows[i].path, rows[j].path)
        }),
{
    broadcast use vstd::seq_lib::to_multiset_contains;
    let rows = assembled(bound, workspaces, panes, dormant, home);
    let opens = open_rows(bound, panes, home, workspaces);
    let ds = dormant_rows(paths_of(opens), dormant);
    let u = unsorted_rows(bound, workspaces, panes, dormant, home);
    lemma_row_order_strict_weak();
    crate::order::lemma_sort_sorted(u, row_order());
    crate::order::lemma_sort_multiset(u, row_order());
    lemma_dormant_rows_origin(paths_of(opens), dormant);
    // counting the open rows
    assert forall|i: int| 0 <= i < opens.len() implies is_open(#[trigger] opens[i]) by {}
    lemma_count_open_all(opens);
    assert forall|i: int| 0 <= i < ds.len() implies !is_open(#[trigger] ds[i]) by {
        let c = choose|c: Candidate|
            #![trigger dormant.contains(c)]
            dormant.contains(c) && !has_same_path(paths_of(opens), c.path@) && ds[i] == dormant_row(c);
    }
    lemma_count_open_none(ds);
    lemma_count_open_concat(opens, ds);
    lemma_count_open_sort(u);
    assert forall|i: int, j: int|
        0 <= i < j < rows.len() && is_open(#[trigger] rows[j]) implies is_open(
        #[trigger] rows[i],
    ) by {
        assert(!row_order()(rows[j], rows[i]));
    }
    lemma_open_prefix(rows);
    // membership moves between the sorted and unsorted rows
    assert forall|k: int| 0 <= k < workspaces.len() implies rows.contains(
        open_row(bound, panes, home, #[trigger] workspaces[k]),
    ) by {
        assert(u[k] == opens[k]);
        assert(u[k] == open_row(bound, panes, home, workspaces[k]));
        assert(u.contains(u[k]));
        assert(u.to_multiset().count(u[k]) > 0);
        assert(rows.to_multiset().count(u[k]) > 0);
    }
    assert forall|i: int| 0 <= i < rows.len() && !is_open(#[trigger] rows[i]) implies exists|
        c: Candidate,
    |
        #![trigger dormant.contains(c)]
        dormant.contains(c) && !has_same_path(paths_of(opens), c.path@) && rows[i] == dormant_row(c) by {
        assert(rows.contains(rows[i]));
        assert(rows.to_multiset().count(rows[i]) > 0);
        assert(u.to_multiset().count(rows[i]) > 0);
        assert(u.contains(rows[i]));
        let m = choose|m: int| 0 <= m < u.len() && u[m] == rows[i];
        if m < opens.len() {
            assert(is_open(opens[m]));
        } else {
            assert(u[m] == ds[m - opens.len()]);
        }
    }
    assert forall|i: int, j: int|
        0 <= i < rows.len() && 0 <= j < rows.len() && is_open(#[trigger] rows[i]) && !is_open(
            #[trigger] rows[j],
        ) implies !same_path(rows[i].path, rows[j].path) by {
        assert(rows.contains(rows[i]));
        assert(rows.to_multiset().count(rows[i]) > 0);
        assert(u.to_multiset().count(rows[i]) > 0);
        assert(u.contains(rows[i]));
        let m = choose|m: int| 0 <= m < u.len() && u[m] == rows[i];
        if m >= opens.len() {
            assert(u[m] == ds[m - opens.len()]);
            assert(!is_open(ds[m - opens.len()]));
        }
        assert(paths_of(opens)[m] == rows[i].path);
        let c = choose|c: Candidate|
            #![trigger dormant.contains(c)]
            dormant.contains(c) && !has_same_path(paths_of(opens), c.path@) && rows[j] == dormant_row(c);
        assert(!same_path(paths_of(opens)[m], c.path@));
    }
}

/// Rows with the same sort key keep the order in which they were made: open rows in the
/// order of the workspaces, dormant rows in the order of the candidates. For every row `x`,
/// the rows that sort level with `x` appear in the assembled rows as in the unsorted ones.
pub proof fn law_assembled_stable(
    bound: Seq<(String, String)>,
    workspaces: Seq<Workspace>,
    panes: Seq<Pane>,
    dormant: Seq<Candidate>,
    home: Option<Seq<char>>,
    x: RowModel,
)
    ensures
        class_of(assembled(bound, workspaces, panes, dormant, home), x, row_order()) == class_of(
            unsorted_rows(bound, workspaces, panes, dormant, home),
            x,
            row_order(),
        ),
{
    lemma_row_order_strict_weak();
    law_sort_stable(unsorted_rows(bound, workspaces, panes, dormant, home), x, row_order());
}

proof fn lemma_bound_dir_only(bound: Seq<(String, String)>, i: int)
    requires
        0 <= i < bound.len(),
        forall|j: int| 0 <= j < bound.len() && j != i ==> (#[trigger] bound[j]).1@ != bound[i].1@,
    ensures
        bound_dir(bound, bound[i].1@) == Some(bound[i].0@),
    decreases bound.len(),
{
    if i < bound.len() - 1 {
        let t = bound.drop_last();
        assert(bound[bound.len() - 1].1@ != bound[i].1@);
        assert forall|j: int| 0 <= j < t.len() && j != i implies (#[trigger] t[j]).1@ != t[i].1@ by {
            assert(t[j] == bound[j]);
        }
        lemma_bound_dir_only(t, i);
    }
}

/// A project bound in the registry to a live workspace is shown open: when the workspace
/// id of the binding is among the live workspaces and no other directory is bound to it,
/// some open row has the bound directory as its path.
pub proof fn law_bound_and_live_is_open(
    bound: Seq<(String, String)>,
    workspaces: Seq<Workspace>,
    panes: Seq<Pane>,
    dormant: Seq<Candidate>,
    home: Option<Seq<char>>,
    i: int,
)
    requires
        0 <= i < bound.len(),
        forall|j: int| 0 <= j < bound.len() && j != i ==> (#[trigger] bound[j]).1@ != bound[i].1@,
        exists|k: int| 0 <= k < workspaces.len() && (#[trigger] workspaces[k]).workspace_id@ == bound[i].1@,
    ensures
        exists|r: RowModel|
            #![trigger assembled(bound, workspaces, panes, dormant, home).contains(r)]
            assembled(bound, workspaces, panes, dormant, home).contains(r) && is_open(r) && r.path
                == bound[i].0@,
{
    let k = choose|k: int| 0 <= k < workspaces.len() && (#[trigger] workspaces[k]).workspace_id@ == bound[i].1@;
    lemma_bound_dir_only(bound, i);
    lemma_assembled_layout(bound, workspaces, panes, dormant, home);
    let r = open_row(bound, panes, home, workspaces[k]);
    assert(assembled(bound, workspaces, panes, dormant, home).contains(r));
}

} // verus!
