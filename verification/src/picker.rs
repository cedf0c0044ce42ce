use vstd::prelude::*;
use nucleo_matcher::Matcher;
use nucleo_matcher::pattern::{CaseMatching, Normalization, Pattern};
use nucleo_matcher::Utf32Str;
use crate::model::{AgentState, Kind, Row, RowModel, KindModel, rows_view, is_open, glyph_of, word_of};
use crate::order::{
    insert_by, stable_sort, sorted_by, strict_weak, insert_point, lemma_insert_at, class_of,
};
use crate::text::{concat, pad_right, padded, push_char, pop_char};

verus! {

#[verifier::external_type_specification]
#[verifier::external_body]
pub struct ExMatcher(Matcher);

/// What the switcher ended with: nothing, or an action on the row at an index.
#[derive(Debug, Clone, Copy, PartialEq, Eq, Structural)]
pub enum Outcome {
    Cancel,
    Jump(usize),
    ForceNew(usize),
    Close(usize),
}

/// The colour a state is shown in.
#[derive(Debug, Clone, Copy, PartialEq, Eq, Structural)]
pub enum StateColor {
    Red,
    Cyan,
    Green,
    DarkGray,
}

pub open spec fn color_of(s: AgentState) -> StateColor {
    match s {
        AgentState::Blocked => StateColor::Red,
        AgentState::Working => StateColor::Cyan,
        AgentState::Done => StateColor::Green,
        AgentState::Idle => StateColor::DarkGray,
        AgentState::Unknown => StateColor::DarkGray,
    }
}

/// Blocked in red, working in cyan, done in green, idle and unknown in dark gray.
pub fn state_color(s: AgentState) -> (c: StateColor)
    ensures
        c == color_of(s),
{
    match s {
        AgentState::Blocked => StateColor::Red,
        AgentState::Working => StateColor::Cyan,
        AgentState::Done => StateColor::Green,
        AgentState::Idle => StateColor::DarkGray,
        AgentState::Unknown => StateColor::DarkGray,
    }
}

/// A fuzzy matcher with nucleo's default configuration.
pub struct FuzzyMatcher {
    inner: Matcher,
}

/// The score nucleo gives the haystack `hay` for the query `query`, parsed as a pattern
/// with smart case matching and smart normalization, or `None` when it does not match.
pub uninterp spec fn nucleo_score(query: Seq<char>, hay: Seq<char>) -> Option<u32>;

/// `Matcher::new` of nucleo with `Config::DEFAULT`; nothing about the matcher is visible.
#[verifier::external_body]
fn default_matcher() -> (m: Matcher) {
    Matcher::new(nucleo_matcher::Config::DEFAULT)
}

impl FuzzyMatcher {
    /// A matcher with nucleo's default configuration, the only one this type holds.
    pub fn new() -> (m: FuzzyMatcher) {
        FuzzyMatcher { inner: default_matcher() }
    }

    /// `Pattern::parse` of nucleo (smart case, smart normalization) on `query`, then
    /// `Pattern::score` of that pattern on `hay`. The matcher only lends scratch space and the
    /// default configuration, so the score is a function of the two strings.
    ///
    /// Where nucleo could panic, `requires` keeps out:
    /// - it asserts that the haystack it matches has at most `u32::MAX` units, a unit being a
    ///   byte when every grapheme starts with an ASCII character and a character otherwise; a
    ///   haystack of at most `u32::MAX / 4` characters has at most `u32::MAX` UTF-8 bytes;
    /// - it adds the score of each matched character of a word into a `u16`, unchecked: at
    ///   most 36 for the first character, 26 for each further one, and 8 of prefix bonus, so a
    ///   word of at most 2048 characters stays below `u16::MAX`;
    /// - it sums the words' `u16` scores into a `u32`, which 2048 characters (at most 1024
    ///   words) cannot overflow.
    #[verifier::external_body]
    fn score(&mut self, query: &str, hay: &str) -> (r: Option<u32>)
        requires
            hay@.len() * 4 <= u32::MAX,
            query@.len() <= QUERY_LIMIT,
        ensures
            r == nucleo_score(query@, hay@),
    {
        let pattern = Pattern::parse(query, CaseMatching::Smart, Normalization::Smart);
        let mut buf: Vec<char> = Vec::new();
        pattern.score(Utf32Str::new(hay, &mut buf), &mut self.inner)
    }
}

/// The longest query the matcher takes.
pub const QUERY_LIMIT: usize = 2048;

/// Whether the matcher takes the query.
pub fn query_fits(query: &str) -> (b: bool)
    ensures
        b == (query@.len() <= QUERY_LIMIT),
{
    query.unicode_len() <= QUERY_LIMIT
}

/// What the query is matched against: the name and the displayed directory.
pub open spec fn haystack(r: RowModel) -> Seq<char> {
    r.name + seq![' '] + r.display
}

/// The (score, index) of each of the first `n` rows that the query matches, in row order.
pub open spec fn scored(rows: Seq<RowModel>, query: Seq<char>, n: int) -> Seq<(u32, usize)>
    decreases n,
{
    if n <= 0 {
        Seq::empty()
    } else {
        let prev = scored(rows, query, n - 1);
        match nucleo_score(query, haystack(rows[n - 1])) {
            Some(s) => prev.push((s, (n - 1) as usize)),
            None => prev,
        }
    }
}

/// Higher scores first.
pub open spec fn by_score() -> spec_fn((u32, usize), (u32, usize)) -> bool {
    |a: (u32, usize), b: (u32, usize)| a.0 > b.0
}

/// The rows the switcher lists for `query`, as indices: all of them in order for an empty
/// query; else the matching ones, best score first, equal scores in row order.
pub open spec fn filtered(rows: Seq<RowModel>, query: Seq<char>) -> Seq<usize> {
    if query.len() == 0 {
        Seq::new(rows.len(), |i: int| i as usize)
    } else {
        stable_sort(scored(rows, query, rows.len() as int), by_score()).map_values(
            |p: (u32, usize)| p.1,
        )
    }
}

/// Every row's haystack fits the matcher: at most `u32::MAX` bytes however it is encoded.
pub open spec fn searchable(rows: Seq<RowModel>) -> bool {
    forall|i: int| 0 <= i < rows.len() ==> haystack(#[trigger] rows[i]).len() * 4 <= u32::MAX
}

proof fn lemma_scored_props(rows: Seq<RowModel>, query: Seq<char>, n: int)
    requires
        0 <= n <= rows.len(),
        n <= usize::MAX,
    ensures
        forall|j: int|
            0 <= j < scored(rows, query, n).len() ==> (#[trigger] scored(rows, query, n)[j]).1 < n
                && nucleo_score(query, haystack(rows[scored(rows, query, n)[j].1 as int]))
                == Some(scored(rows, query, n)[j].0),
        forall|i: int|
            0 <= i < n && (#[trigger] nucleo_score(query, haystack(rows[i]))) is Some ==> scored(
                rows,
                query,
                n,
            ).contains((nucleo_score(query, haystack(rows[i]))->0, i as usize)),
        forall|a: int, b: int|
            0 <= a < b < scored(rows, query, n).len() ==> (#[trigger] scored(rows, query, n)[a]).1
                < (#[trigger] scored(rows, query, n)[b]).1,
    decreases n,
{
    if n > 0 {
        lemma_scored_props(rows, query, n - 1);
        let prev = scored(rows, query, n - 1);
        let cur = scored(rows, query, n);
        assert forall|i: int|
            0 <= i < n && (#[trigger] nucleo_score(query, haystack(rows[i]))) is Some implies cur.contains(
            (nucleo_score(query, haystack(rows[i]))->0, i as usize),
        ) by {
            if i < n - 1 {
                let j = choose|j: int| 0 <= j < prev.len() && prev[j] == (nucleo_score(query, haystack(rows[i]))->0, i as usize);
                assert(cur[j] == prev[j]);
            } else {
                assert(cur[prev.len() as int] == (nucleo_score(query, haystack(rows[i]))->0, i as usize));
            }
        }
        assert forall|j: int| 0 <= j < cur.len() implies (#[trigger] cur[j]).1 < n && nucleo_score(
            query,
            haystack(rows[cur[j].1 as int]),
        ) == Some(cur[j].0) by {
            if j < prev.len() {
                assert(cur[j] == prev[j]);
            }
        }
        assert forall|a: int, b: int| 0 <= a < b < cur.len() implies (#[trigger] cur[a]).1
            < (#[trigger] cur[b]).1 by {
            assert(cur[a] == prev[a]);
            if b < prev.len() {
                assert(cur[b] == prev[b]);
            }
        }
    }
}

proof fn lemma_by_score_strict_weak()
    ensures
        strict_weak(by_score()),
{
}

/// For a non-empty query the listed rows are exactly the rows the query matches, each once,
/// best score first, rows of equal score in row order.
pub proof fn law_filter_ranked(rows: Seq<RowModel>, query: Seq<char>)
    requires
        query.len() > 0,
        rows.len() <= usize::MAX,
    ensures
        ({
            let f = filtered(rows, query);
            let pairs = stable_sort(scored(rows, query, rows.len() as int), by_score());
            &&& f == pairs.map_values(|p: (u32, usize)| p.1)
            &&& sorted_by(pairs, by_score())
            &&& pairs.to_multiset() == scored(rows, query, rows.len() as int).to_multiset()
            &&& forall|j: int|
                0 <= j < pairs.len() ==> (#[trigger] pairs[j]).1 < rows.len() && nucleo_score(
                    query,
                    haystack(rows[pairs[j].1 as int]),
                ) == Some(pairs[j].0)
            &&& forall|i: int|
                0 <= i < rows.len() && (#[trigger] nucleo_score(query, haystack(rows[i]))) is Some
                    ==> pairs.contains((nucleo_score(query, haystack(rows[i]))->0, i as usize))
            &&& forall|x: (u32, usize)|
                #[trigger] class_of(pairs, x, by_score()) == class_of(
                    scored(rows, query, rows.len() as int),
                    x,
                    by_score(),
                )
        }),
{
    broadcast use vstd::seq_lib::to_multiset_contains;
    let n = rows.len() as int;
    let sc = scored(rows, query, n);
    let pairs = stable_sort(sc, by_score());
    lemma_scored_props(rows, query, n);
    lemma_by_score_strict_weak();
    crate::order::lemma_sort_sorted(sc, by_score());
    crate::order::lemma_sort_multiset(sc, by_score());
    assert forall|x: (u32, usize)| #[trigger] class_of(pairs, x, by_score()) == class_of(sc, x, by_score()) by {
        crate::order::law_sort_stable(sc, x, by_score());
    }
    assert forall|j: int| 0 <= j < pairs.len() implies (#[trigger] pairs[j]).1 < rows.len()
        && nucleo_score(query, haystack(rows[pairs[j].1 as int])) == Some(pairs[j].0) by {
        assert(pairs.contains(pairs[j]));
        assert(pairs.to_multiset().count(pairs[j]) > 0);
        assert(sc.to_multiset().count(pairs[j]) > 0);
        let m = choose|m: int| 0 <= m < sc.len() && sc[m] == pairs[j];
    }
    assert forall|i: int|
        0 <= i < rows.len() && (#[trigger] nucleo_score(query, haystack(rows[i]))) is Some implies pairs.contains(
        (nucleo_score(query, haystack(rows[i]))->0, i as usize),
    ) by {
        let x = (nucleo_score(query, haystack(rows[i]))->0, i as usize);
        assert(sc.contains(x));
        assert(sc.to_multiset().count(x) > 0);
        assert(pairs.to_multiset().count(x) > 0);
    }
}

/// For a non-empty query every listed row matches it, every matching row is listed, and
/// the listed rows come in order of score, highest first: a row listed before another has
/// a score at least as high.
pub proof fn law_filter_best_first(rows: Seq<RowModel>, query: Seq<char>)
    requires
        query.len() > 0,
        rows.len() <= usize::MAX,
    ensures
        ({
            let f = filtered(rows, query);
            &&& forall|j: int|
                0 <= j < f.len() ==> (#[trigger] f[j]) < rows.len() && nucleo_score(
                    query,
                    haystack(rows[f[j] as int]),
                ) is Some
            &&& forall|j: int, k: int|
                0 <= j < k < f.len() ==> nucleo_score(query, haystack(rows[#[trigger] f[j] as int]))->0
                    >= nucleo_score(query, haystack(rows[#[trigger] f[k] as int]))->0
            &&& forall|i: int|
                0 <= i < rows.len() && (#[trigger] nucleo_score(query, haystack(rows[i]))) is Some
                    ==> f.contains(i as usize)
        }),
{
    law_filter_ranked(rows, query);
    let f = filtered(rows, query);
    let pairs = stable_sort(scored(rows, query, rows.len() as int), by_score());
    assert(f.len() == pairs.len());
    assert forall|j: int| 0 <= j < f.len() implies (#[trigger] f[j]) < rows.len() && nucleo_score(
        query,
        haystack(rows[f[j] as int]),
    ) is Some by {
        assert(f[j] == pairs[j].1);
    }
    assert forall|j: int, k: int|
        0 <= j < k < f.len() implies nucleo_score(query, haystack(rows[#[trigger] f[j] as int]))->0
        >= nucleo_score(query, haystack(rows[#[trigger] f[k] as int]))->0 by {
        assert(f[j] == pairs[j].1 && f[k] == pairs[k].1);
        assert(!by_score()(pairs[k], pairs[j]));
    }
    assert forall|i: int|
        0 <= i < rows.len() && (#[trigger] nucleo_score(query, haystack(rows[i]))) is Some implies f.contains(
        i as usize,
    ) by {
        let x = (nucleo_score(query, haystack(rows[i]))->0, i as usize);
        let m = choose|m: int| 0 <= m < pairs.len() && pairs[m] == x;
        assert(f[m] == i as usize);
    }
}

fn insert_scored(out: &mut Vec<(u32, usize)>, x: (u32, usize))
    ensures
        final(out)@ == insert_by(old(out)@, x, by_score()),
{
    let mut j: usize = out.len();
    while j > 0 && x.0 > out[j - 1].0
        invariant
            j <= out@.len(),
            forall|k: int| j <= k < out@.len() ==> by_score()(x, #[trigger] out@[k]),
        decreases j,
    {
        j = j - 1;
    }
    proof {
        assert(insert_point(out@, x, by_score(), j as int));
        lemma_insert_at(out@, x, by_score(), j as int);
    }
    out.insert(j, x);
}

/// The indices of the rows listed for `query`, ranked.
pub fn filter(rows: &[Row], query: &str, matcher: &mut FuzzyMatcher) -> (r: Vec<usize>)
    requires
        query@.len() > 0 ==> searchable(rows_view(rows@)),
        query@.len() <= QUERY_LIMIT,
    ensures
        r@ == filtered(rows_view(rows@), query@),
        indices_in(r@, rows@.len()),
{
    let ghost rv = rows_view(rows@);
    if query.unicode_len() == 0 {
        let mut all: Vec<usize> = Vec::new();
        let mut i: usize = 0;
        while i < rows.len()
            invariant
                i <= rows@.len(),
                all@ == Seq::new(i as nat, |k: int| k as usize),
            decreases rows@.len() - i,
        {
            all.push(i);
            i = i + 1;
            assert(all@ =~= Seq::new(i as nat, |k: int| k as usize));
        }
        assert(rv.len() == rows@.len());
        return all;
    }
    let mut out: Vec<(u32, usize)> = Vec::new();
    let mut i: usize = 0;
    while i < rows.len()
        invariant
            i <= rows@.len(),
            rv == rows_view(rows@),
            searchable(rv),
            query@.len() <= QUERY_LIMIT,
            out@ == stable_sort(scored(rv, query@, i as int), by_score()),
        decreases rows@.len() - i,
    {
        let r: &Row = &rows[i];
        let hay: String = concat(concat(r.name.as_str(), " ").as_str(), r.display.as_str());
        proof {
            reveal_strlit(" ");
            assert(rv[i as int] == r@);
            assert(hay@ =~= haystack(rv[i as int]));
        }
        match matcher.score(query, hay.as_str()) {
            Some(s) => {
                proof {
                    let sc = scored(rv, query@, i as int);
                    assert(sc.push((s, i)).drop_last() =~= sc);
                }
                insert_scored(&mut out, (s, i));
            },
            None => {},
        }
        i = i + 1;
    }
    let mut res: Vec<usize> = Vec::new();
    let mut k: usize = 0;
    while k < out.len()
        invariant
            k <= out@.len(),
            res@ == out@.take(k as int).map_values(|p: (u32, usize)| p.1),
        decreases out@.len() - k,
    {
        res.push(out[k].1);
        k = k + 1;
        assert(res@ =~= out@.take(k as int).map_values(|p: (u32, usize)| p.1));
    }
    assert(out@.take(out@.len() as int) =~= out@);
    proof {
        law_filter_ranked(rv, query@);
        assert forall|j: int| 0 <= j < res@.len() implies #[trigger] res@[j] < rows@.len() by {
            assert(res@[j] == out@[j].1);
        }
    }
    res
}

/// Whether the matcher can take every row's text (at most `u32::MAX / 4` characters).
pub fn searchable_rows(rows: &[Row]) -> (b: bool)
    ensures
        b == searchable(rows_view(rows@)),
{
    let mut i: usize = 0;
    while i < rows.len()
        invariant
            i <= rows@.len(),
            forall|k: int| 0 <= k < i ==> haystack(#[trigger] rows_view(rows@)[k]).len() * 4 <= u32::MAX,
        decreases rows@.len() - i,
    {
        let n: usize = rows[i].name.as_str().unicode_len();
        let d: usize = rows[i].display.as_str().unicode_len();
        assert(rows_view(rows@)[i as int] == rows@[i as int]@);
        if ((n as u128) + (d as u128) + 1) * 4 > 4294967295u128 {
            return false;
        }
        i = i + 1;
    }
    true
}

/// Whether every listed index names one of `n` rows.
pub fn indices_fit(filtered: &[usize], n: usize) -> (b: bool)
    ensures
        b == indices_in(filtered@, n as nat),
{
    let mut i: usize = 0;
    while i < filtered.len()
        invariant
            i <= filtered@.len(),
            forall|k: int| 0 <= k < i ==> #[trigger] filtered@[k] < n,
        decreases filtered@.len() - i,
    {
        if filtered[i] >= n {
            return false;
        }
        i = i + 1;
    }
    true
}

/// One line of the list: a group header (for the open group or the projects group), or the
/// row at an index.
#[derive(Debug, Clone, Copy, PartialEq, Eq, Structural)]
pub enum ListEntry {
    Header(bool),
    Item(usize),
}

/// The label of a group header.
pub open spec fn header_label(open: bool) -> Seq<char> {
    if open {
        "  OPEN"@
    } else {
        "  PROJECTS"@
    }
}

pub fn header_text(open: bool) -> (r: &'static str)
    ensures
        r@ == header_label(open),
{
    if open {
        "  OPEN"
    } else {
        "  PROJECTS"
    }
}

/// Every listed index names a row.
pub open spec fn indices_in(filtered: Seq<usize>, n: nat) -> bool {
    forall|i: int| 0 <= i < filtered.len() ==> #[trigger] filtered[i] < n
}

/// The list for the listed rows: each row as an item, preceded by a header where its group
/// begins when headers are shown.
pub open spec fn layout(rows: Seq<RowModel>, filtered: Seq<usize>, show_headers: bool) -> Seq<
    ListEntry,
>
    decreases filtered.len(),
{
    if filtered.len() == 0 {
        Seq::empty()
    } else {
        let prev = layout(rows, filtered.drop_last(), show_headers);
        let ri = filtered.last();
        let g = is_open(rows[ri as int]);
        let head = show_headers && (filtered.len() == 1 || is_open(
            rows[filtered[filtered.len() - 2] as int],
        ) != g);
        let with_head = if head {
            prev.push(ListEntry::Header(g))
        } else {
            prev
        };
        with_head.push(ListEntry::Item(ri))
    }
}

/// Where in the list the selected row stands (0 when nothing is selected).
pub open spec fn selected_position(
    rows: Seq<RowModel>,
    filtered: Seq<usize>,
    sel: int,
    show_headers: bool,
) -> int {
    if 0 <= sel < filtered.len() {
        layout(rows, filtered.take(sel + 1), show_headers).len() - 1
    } else {
        0
    }
}

proof fn lemma_layout_prefix(rows: Seq<RowModel>, filtered: Seq<usize>, show_headers: bool, n: int)
    requires
        0 <= n <= filtered.len(),
    ensures
        layout(rows, filtered.take(n), show_headers).len() <= layout(rows, filtered, show_headers).len(),
        forall|k: int|
            0 <= k < layout(rows, filtered.take(n), show_headers).len() ==> #[trigger] layout(
                rows,
                filtered.take(n),
                show_headers,
            )[k] == layout(rows, filtered, show_headers)[k],
    decreases filtered.len() - n,
{
    if n < filtered.len() {
        let t = filtered.drop_last();
        lemma_layout_prefix(rows, t, show_headers, n);
        assert(t.take(n) =~= filtered.take(n));
    } else {
        assert(filtered.take(n) =~= filtered);
    }
}

/// Without headers, the list is the listed rows, one item each, in order.
pub proof fn law_layout_plain(rows: Seq<RowModel>, filtered: Seq<usize>)
    ensures
        layout(rows, filtered, false) == filtered.map_values(|i: usize| ListEntry::Item(i)),
    decreases filtered.len(),
{
    if filtered.len() > 0 {
        law_layout_plain(rows, filtered.drop_last());
        assert(layout(rows, filtered, false) =~= filtered.map_values(|i: usize| ListEntry::Item(i)));
    } else {
        assert(layout(rows, filtered, false) =~= filtered.map_values(|i: usize| ListEntry::Item(i)));
    }
}

/// The highlighted line is the selected row: the entry at the selected position is the item
/// of the row the selection points at.
pub proof fn law_selection_highlighted(
    rows: Seq<RowModel>,
    filtered: Seq<usize>,
    sel: int,
    show_headers: bool,
)
    requires
        0 <= sel < filtered.len(),
    ensures
        0 <= selected_position(rows, filtered, sel, show_headers) < layout(rows, filtered, show_headers).len(),
        layout(rows, filtered, show_headers)[selected_position(rows, filtered, sel, show_headers)]
            == ListEntry::Item(filtered[sel]),
{
    lemma_layout_prefix(rows, filtered, show_headers, sel + 1);
    let t = filtered.take(sel + 1);
    assert(t.last() == filtered[sel]);
    let l = layout(rows, t, show_headers);
    assert(l[l.len() - 1] == ListEntry::Item(filtered[sel]));
}

fn row_is_open(r: &Row) -> (b: bool)
    ensures
        b == is_open(r@),
{
    match r.kind {
        Kind::Open { .. } => true,
        Kind::Dormant => false,
    }
}

/// The list entries for the listed rows, and the position of the selected one.
pub fn build(rows: &[Row], filtered: &[usize], sel: usize, show_headers: bool) -> (r: (
    Vec<ListEntry>,
    usize,
))
    requires
        indices_in(filtered@, rows@.len()),
    ensures
        r.0@ == layout(rows_view(rows@), filtered@, show_headers),
        r.1 as int == selected_position(rows_view(rows@), filtered@, sel as int, show_headers),
{
    let ghost rv = rows_view(rows@);
    let mut items: Vec<ListEntry> = Vec::new();
    let mut sel_pos: usize = 0;
    let mut last_group: Option<bool> = None;
    let mut fi: usize = 0;
    while fi < filtered.len()
        invariant
            fi <= filtered@.len(),
            rv == rows_view(rows@),
            indices_in(filtered@, rows@.len()),
            items@ == layout(rv, filtered@.take(fi as int), show_headers),
            show_headers ==> match last_group {
                Some(g) => fi > 0 && g == is_open(rv[filtered@[fi - 1] as int]),
                None => fi == 0,
            },
            sel_pos as int == (if sel < fi {
                selected_position(rv, filtered@, sel as int, show_headers)
            } else {
                0
            }),
        decreases filtered@.len() - fi,
    {
        let ri: usize = filtered[fi];
        assert(filtered@[fi as int] < rows@.len());
        let g: bool = row_is_open(&rows[ri]);
        assert(rv[ri as int] == rows@[ri as int]@);
        assert(filtered@.take(fi as int + 1).drop_last() =~= filtered@.take(fi as int));
        if fi > 0 {
            assert(filtered@.take(fi as int + 1)[fi - 1] == filtered@[fi - 1]);
        }
        let head: bool = match last_group {
            Some(lg) => lg != g,
            None => true,
        };
        if show_headers && head {
            items.push(ListEntry::Header(g));
            last_group = Some(g);
        }
        if show_headers && !head {
            last_group = Some(g);
        }
        if fi == sel {
            sel_pos = items.len();
        }
        items.push(ListEntry::Item(ri));
        fi = fi + 1;
        assert(items@ =~= layout(rv, filtered@.take(fi as int), show_headers));
    }
    assert(filtered@.take(filtered@.len() as int) =~= filtered@);
    (items, sel_pos)
}

/// The text of a row, in the cells the list shows: a marker (the state glyph of an open
/// row), the name padded to 18 columns, the directory (padded to 28 columns for an open row),
/// and for an open row the meta text `<agent> · <state>` and the state's colour.
pub struct RowLine {
    pub marker: String,
    pub name: String,
    pub display: String,
    pub meta: String,
    pub color: Option<StateColor>,
}

pub open spec fn meta_of(agent: Option<Seq<char>>, state: AgentState) -> Seq<char> {
    match agent {
        Some(a) => a + " · "@ + word_of(state),
        None => word_of(state),
    }
}

pub open spec fn row_line_of(r: RowModel) -> (
    Seq<char>,
    Seq<char>,
    Seq<char>,
    Seq<char>,
    Option<StateColor>,
) {
    match r.kind {
        KindModel::Open { state, agent, .. } => (
            glyph_of(state) + seq![' '],
            padded(r.name, 18) + seq![' '],
            padded(r.display, 28) + seq![' '],
            meta_of(agent, state),
            Some(color_of(state)),
        ),
        KindModel::Dormant => (
            seq![' ', ' '],
            padded(r.name, 18) + seq![' '],
            r.display,
            Seq::empty(),
            None,
        ),
    }
}

pub open spec fn line_view(l: RowLine) -> (
    Seq<char>,
    Seq<char>,
    Seq<char>,
    Seq<char>,
    Option<StateColor>,
) {
    (l.marker@, l.name@, l.display@, l.meta@, l.color)
}

/// The cells of the list line for `r`.
pub fn row_line(r: &Row) -> (l: RowLine)
    ensures
        line_view(l) == row_line_of(r@),
{
    let mut name: String = pad_right(r.name.as_str(), 18);
    push_char(&mut name, ' ');
    match &r.kind {
        Kind::Open { state, agent, .. } => {
            let mut marker: String = String::from_str(state.glyph());
            push_char(&mut marker, ' ');
            let mut display: String = pad_right(r.display.as_str(), 28);
            push_char(&mut display, ' ');
            let meta: String = match agent {
                Some(a) => concat(concat(a.as_str(), " · ").as_str(), state.word()),
                None => String::from_str(state.word()),
            };
            RowLine { marker, name, display, meta, color: Some(state_color(*state)) }
        },
        Kind::Dormant => {
            let marker: String = String::from_str("  ");
            proof { reveal_strlit("  "); }
            assert(marker@ =~= seq![' ', ' ']);
            RowLine {
                marker,
                name,
                display: String::from_str(r.display.as_str()),
                meta: String::new(),
                color: None,
            }
        },
    }
}

/// A key press, as the switcher reads it.
#[derive(Debug, Clone, Copy, PartialEq, Eq, Structural)]
pub enum KeyInput {
    Esc,
    Enter,
    Up,
    Down,
    Backspace,
    /// A character, and whether Control was held.
    Char(char, bool),
    Other,
}

/// The switcher's query and the position of the selection among the listed rows.
pub struct PickerState {
    pub query: String,
    pub sel: usize,
}

/// The selection moved back onto the list when the list got shorter.
pub open spec fn clamped(sel: usize, len: usize) -> usize {
    if sel >= len {
        if len == 0 {
            0
        } else {
            (len - 1) as usize
        }
    } else {
        sel
    }
}

pub fn clamp_selection(sel: usize, len: usize) -> (r: usize)
    ensures
        r == clamped(sel, len),
{
    if sel >= len {
        len.saturating_sub(1)
    } else {
        sel
    }
}

/// What a key does: the new query, the new selection, and the outcome when the switcher
/// ends. Esc and Ctrl-C cancel; Enter jumps to the selected row and Ctrl-N forces a new
/// workspace for it; Ctrl-X closes it when it is open; arrows move within the list;
/// typing edits the query and selects the first row.
pub open spec fn key_step(
    rows: Seq<RowModel>,
    filtered: Seq<usize>,
    query: Seq<char>,
    sel: usize,
    key: KeyInput,
) -> (Seq<char>, usize, Option<Outcome>) {
    let has = sel < filtered.len();
    match key {
        KeyInput::Esc => (query, sel, Some(Outcome::Cancel)),
        KeyInput::Enter => (query, sel, if has { Some(Outcome::Jump(filtered[sel as int])) } else { None }),
        KeyInput::Up => (query, if sel == 0 { 0 } else { (sel - 1) as usize }, None),
        KeyInput::Down => (query, if sel + 1 < filtered.len() { (sel + 1) as usize } else { sel }, None),
        KeyInput::Backspace => (if query.len() == 0 { query } else { query.drop_last() }, 0, None),
        KeyInput::Char(c, ctrl) => if !ctrl {
            (query.push(c), 0, None)
        } else if c == 'c' {
            (query, sel, Some(Outcome::Cancel))
        } else if c == 'n' {
            (query, sel, if has { Some(Outcome::ForceNew(filtered[sel as int])) } else { None })
        } else if c == 'x' {
            (query, sel, if has && is_open(rows[filtered[sel as int] as int]) {
                Some(Outcome::Close(filtered[sel as int]))
            } else {
                None
            })
        } else {
            (query, sel, None)
        },
        KeyInput::Other => (query, sel, None),
    }
}

/// Applies a key to the switcher's state; `Some` when the switcher is done.
pub fn on_key(rows: &[Row], filtered: &[usize], state: &mut PickerState, key: KeyInput) -> (r:
    Option<Outcome>)
    requires
        indices_in(filtered@, rows@.len()),
    ensures
        (final(state).query@, final(state).sel, r) == key_step(
            rows_view(rows@),
            filtered@,
            old(state).query@,
            old(state).sel,
            key,
        ),
{
    let has: bool = state.sel < filtered.len();
    match key {
        KeyInput::Esc => Some(Outcome::Cancel),
        KeyInput::Enter => if has {
            Some(Outcome::Jump(filtered[state.sel]))
        } else {
            None
        },
        KeyInput::Up => {
            state.sel = state.sel.saturating_sub(1);
            None
        },
        KeyInput::Down => {
            if filtered.len() > 0 && state.sel < filtered.len() - 1 {
                state.sel = state.sel + 1;
            }
            None
        },
        KeyInput::Backspace => {
            let _ = pop_char(&mut state.query);
            state.sel = 0;
            None
        },
        KeyInput::Char(c, ctrl) => {
            if !ctrl {
                push_char(&mut state.query, c);
                state.sel = 0;
                None
            } else if c == 'c' {
                Some(Outcome::Cancel)
            } else if c == 'n' {
                if has {
                    Some(Outcome::ForceNew(filtered[state.sel]))
                } else {
                    None
                }
            } else if c == 'x' {
                if has {
                    let ri: usize = filtered[state.sel];
                    assert(rows_view(rows@)[ri as int] == rows@[ri as int]@);
                    if row_is_open(&rows[ri]) {
                        Some(Outcome::Close(ri))
                    } else {
                        None
                    }
                } else {
                    None
                }
            } else {
                None
            }
        },
        KeyInput::Other => None,
    }
}

/// A key never yields an outcome for a row that does not exist, Ctrl-X closes only open
/// rows, and the selection stays on the list.
pub proof fn law_key_step_safe(
    rows: Seq<RowModel>,
    filtered: Seq<usize>,
    query: Seq<char>,
    sel: usize,
    key: KeyInput,
)
    requires
        indices_in(filtered, rows.len()),
        sel < filtered.len() || sel == 0,
    ensures
        ({
            let (q, s, o) = key_step(rows, filtered, query, sel, key);
            &&& s < filtered.len() || s == 0
            &&& match o {
                Some(Outcome::Jump(i)) => i < rows.len(),
                Some(Outcome::ForceNew(i)) => i < rows.len(),
                Some(Outcome::Close(i)) => i < rows.len() && is_open(rows[i as int]),
                _ => true,
            }
        }),
{
}

} // verus!
