use vstd::prelude::*;
use crate::config::{Config, tilde_expanded};
use crate::paths::{
    home_dir, path_file_name, path_strip_prefix, file_name_of, strip_path_prefix, as_opt_str,
    opt_str_view,
};
use crate::text::{same_str, concat};

verus! {

/// A known project directory that may have no workspace yet.
#[derive(Debug, Clone, PartialEq, Eq)]
pub struct Candidate {
    pub path: String,
    pub display: String,
}

/// The characters of each string of a sequence.
pub open spec fn strs(v: Seq<String>) -> Seq<Seq<char>> {
    v.map_values(|s: String| s@)
}

/// The last component of `p`, or `p` itself when it has none.
pub open spec fn base_name(p: Seq<char>) -> Seq<char> {
    match file_name_of(p) {
        Some(n) => n,
        None => p,
    }
}

/// The name a directory is shown under: its last component.
pub fn basename(p: &str) -> (r: String)
    ensures
        r@ == base_name(p@),
{
    match path_file_name(p) {
        Some(n) => n,
        None => String::from_str(p),
    }
}

/// `p` with the home directory `home` written as `~`.
pub open spec fn collapsed(p: Seq<char>, home: Option<Seq<char>>) -> Seq<char> {
    match home {
        Some(h) => match strip_path_prefix(p, h) {
            Some(rest) => if rest.len() == 0 {
                seq!['~']
            } else {
                seq!['~', '/'] + rest
            },
            None => p,
        },
        None => p,
    }
}

/// `p` with the home directory `home` written as `~`.
pub fn collapse_home_in(p: &str, home: Option<&str>) -> (r: String)
    ensures
        r@ == collapsed(p@, opt_str_view(home)),
{
    match home {
        Some(h) => match path_strip_prefix(p, h) {
            Some(rest) => {
                if rest.unicode_len() == 0 {
                    let r: String = String::from_str("~");
                    proof { reveal_strlit("~"); }
                    assert(r@ =~= seq!['~']);
                    r
                } else {
                    let r: String = concat("~/", rest.as_str());
                    proof { reveal_strlit("~/"); }
                    assert(r@ =~= seq!['~', '/'] + rest@);
                    r
                }
            },
            None => String::from_str(p),
        },
        None => String::from_str(p),
    }
}

/// `p` with the user's home directory written as `~`; the home is whatever the environment
/// gave.
pub fn collapse_home(p: &str) -> (r: String)
    ensures
        exists|home: Option<Seq<char>>| r@ == collapsed(p@, home),
{
    let home: Option<String> = home_dir();
    collapse_home_in(p, as_opt_str(&home))
}

/// The directories to consider, before they are resolved on disk: each configured path with
/// `~` expanded against `home`, then the repositories found under the roots, then zoxide's
/// list when it is enabled.
pub open spec fn raw_list(
    paths: Seq<Seq<char>>,
    home: Option<Seq<char>>,
    root_repos: Seq<Seq<char>>,
    use_zoxide: bool,
    zoxide_lines: Seq<Seq<char>>,
) -> Seq<Seq<char>> {
    paths.map_values(|p: Seq<char>| tilde_expanded(p, home)) + root_repos + if use_zoxide {
        zoxide_lines
    } else {
        Seq::<Seq<char>>::empty()
    }
}

fn extend_strings(out: &mut Vec<String>, items: &[String])
    ensures
        strs(final(out)@) == strs(old(out)@) + strs(items@),
{
    let ghost start = strs(out@);
    let mut i: usize = 0;
    while i < items.len()
        invariant
            i <= items@.len(),
            strs(out@) == start + strs(items@.take(i as int)),
        decreases items@.len() - i,
    {
        let ghost before = out@;
        out.push(String::from_str(items[i].as_str()));
        assert(strs(out@) =~= strs(before).push(items@[i as int]@));
        assert(strs(items@.take(i as int + 1)) =~= strs(items@.take(i as int)).push(items@[i as int]@));
        i = i + 1;
        assert(strs(out@) =~= start + strs(items@.take(i as int)));
    }
    assert(items@.take(items@.len() as int) =~= items@);
}

/// The raw directory list, with `~` expanded against `home`.
pub fn raw_paths_in(
    cfg: &Config,
    home: Option<&str>,
    root_repos: &[String],
    zoxide_lines: &[String],
) -> (r: Vec<String>)
    ensures
        strs(r@) == raw_list(
            strs(cfg.paths@),
            opt_str_view(home),
            strs(root_repos@),
            cfg.use_zoxide,
            strs(zoxide_lines@),
        ),
{
    let mut out: Vec<String> = Vec::new();
    let mut i: usize = 0;
    while i < cfg.paths.len()
        invariant
            i <= cfg.paths@.len(),
            strs(out@) == strs(cfg.paths@.take(i as int)).map_values(
                |p: Seq<char>| tilde_expanded(p, opt_str_view(home)),
            ),
        decreases cfg.paths@.len() - i,
    {
        let ghost before = out@;
        let e: String = crate::config::expand_tilde_in(cfg.paths[i].as_str(), home);
        out.push(e);
        assert(strs(out@) =~= strs(before).push(e@));
        assert(strs(cfg.paths@.take(i as int + 1)) =~= strs(cfg.paths@.take(i as int)).push(cfg.paths@[i as int]@));
        i = i + 1;
        assert(strs(out@) =~= strs(cfg.paths@.take(i as int)).map_values(
            |p: Seq<char>| tilde_expanded(p, opt_str_view(home)),
        ));
    }
    assert(cfg.paths@.take(cfg.paths@.len() as int) =~= cfg.paths@);
    extend_strings(&mut out, root_repos);
    if cfg.use_zoxide {
        extend_strings(&mut out, zoxide_lines);
    }
    assert(strs(out@) =~= raw_list(
        strs(cfg.paths@),
        opt_str_view(home),
        strs(root_repos@),
        cfg.use_zoxide,
        strs(zoxide_lines@),
    ));
    out
}

/// The raw directory list, with `~` expanded against the user's home directory, whatever
/// the environment gave for it.
pub fn raw_paths(cfg: &Config, root_repos: &[String], zoxide_lines: &[String]) -> (r: Vec<
    String,
>)
    ensures
        exists|home: Option<Seq<char>>|
            strs(r@) == raw_list(
                strs(cfg.paths@),
                home,
                strs(root_repos@),
                cfg.use_zoxide,
                strs(zoxide_lines@),
            ),
{
    let home: Option<String> = home_dir();
    raw_paths_in(cfg, as_opt_str(&home), root_repos, zoxide_lines)
}

/// The directories that resolved, each once, in the order of their first appearance.
pub open spec fn first_seen(resolved: Seq<Option<Seq<char>>>) -> Seq<Seq<char>>
    decreases resolved.len(),
{
    if resolved.len() == 0 {
        Seq::empty()
    } else {
        let prev = first_seen(resolved.drop_last());
        match resolved.last() {
            Some(p) => if prev.contains(p) {
                prev
            } else {
                prev.push(p)
            },
            None => prev,
        }
    }
}

/// Each directory is listed once; every directory that resolved is listed; nothing else is.
pub proof fn law_first_seen(resolved: Seq<Option<Seq<char>>>)
    ensures
        first_seen(resolved).no_duplicates(),
        forall|i: int|
            0 <= i < resolved.len() && (#[trigger] resolved[i]) is Some ==> first_seen(
                resolved,
            ).contains(resolved[i]->0),
        forall|p: Seq<char>|
            first_seen(resolved).contains(p) ==> exists|i: int|
                0 <= i < resolved.len() && #[trigger] resolved[i] == Some(p),
    decreases resolved.len(),
{
    if resolved.len() > 0 {
        let t = resolved.drop_last();
        law_first_seen(t);
        let prev = first_seen(t);
        let cur = first_seen(resolved);
        assert forall|i: int|
            0 <= i < resolved.len() && (#[trigger] resolved[i]) is Some implies cur.contains(
            resolved[i]->0,
        ) by {
            if i < t.len() {
                assert(t[i] == resolved[i]);
                assert(prev.contains(resolved[i]->0));
                let k = choose|k: int| 0 <= k < prev.len() && prev[k] == resolved[i]->0;
                assert(cur[k] == prev[k]);
            } else if !prev.contains(resolved[i]->0) {
                assert(cur[prev.len() as int] == resolved[i]->0);
            }
        }
        assert forall|p: Seq<char>| cur.contains(p) implies exists|i: int|
            0 <= i < resolved.len() && #[trigger] resolved[i] == Some(p) by {
            let k = choose|k: int| 0 <= k < cur.len() && cur[k] == p;
            if k < prev.len() {
                assert(prev[k] == p);
                assert(prev.contains(p));
                let i = choose|i: int| 0 <= i < t.len() && #[trigger] t[i] == Some(p);
                assert(resolved[i] == t[i]);
            } else {
                assert(resolved[resolved.len() - 1] == Some(p));
            }
        }
    }
}

/// The candidates for a resolved list: each resolved directory once, shown with the home
/// directory `home` as `~`.
pub open spec fn candidates_of(resolved: Seq<Option<Seq<char>>>, home: Option<Seq<char>>) -> Seq<
    (Seq<char>, Seq<char>),
> {
    first_seen(resolved).map_values(|p: Seq<char>| (p, collapsed(p, home)))
}

pub open spec fn candidate_view(c: Candidate) -> (Seq<char>, Seq<char>) {
    (c.path@, c.display@)
}

pub open spec fn candidates_view(v: Seq<Candidate>) -> Seq<(Seq<char>, Seq<char>)> {
    v.map_values(|c: Candidate| candidate_view(c))
}

pub open spec fn opt_strs(v: Seq<Option<String>>) -> Seq<Option<Seq<char>>> {
    v.map_values(|o: Option<String>| crate::paths::opt_view(o))
}

pub fn contains_str(v: &[String], s: &str) -> (r: bool)
    ensures
        r == strs(v@).contains(s@),
{
    let mut i: usize = 0;
    while i < v.len()
        invariant
            i <= v@.len(),
            forall|k: int| 0 <= k < i ==> v@[k]@ != s@,
        decreases v@.len() - i,
    {
        if same_str(v[i].as_str(), s) {
            assert(strs(v@)[i as int] == s@);
            return true;
        }
        i = i + 1;
    }
    assert forall|k: int| 0 <= k < strs(v@).len() implies strs(v@)[k] != s@ by {
        assert(strs(v@)[k] == v@[k]@);
    }
    false
}

/// The candidates for the directories as they resolved on disk (`None` where a directory
/// did not resolve to an existing one), shown with `home` as `~`.
pub fn finalize_in(resolved: &[Option<String>], home: Option<&str>) -> (r: Vec<Candidate>)
    ensures
        candidates_view(r@) == candidates_of(opt_strs(resolved@), opt_str_view(home)),
{
    let mut seen: Vec<String> = Vec::new();
    let mut out: Vec<Candidate> = Vec::new();
    let mut i: usize = 0;
    while i < resolved.len()
        invariant
            i <= resolved@.len(),
            strs(seen@) == first_seen(opt_strs(resolved@.take(i as int))),
            candidates_view(out@) == candidates_of(
                opt_strs(resolved@.take(i as int)),
                opt_str_view(home),
            ),
        decreases resolved@.len() - i,
    {
        assert(opt_strs(resolved@.take(i as int + 1)).drop_last() =~= opt_strs(
            resolved@.take(i as int),
        ));
        let ghost before = out@;
        match &resolved[i] {
            Some(p) => {
                if !contains_str(&seen, p.as_str()) {
                    seen.push(String::from_str(p.as_str()));
                    let display: String = collapse_home_in(p.as_str(), home);
                    let c = Candidate { path: String::from_str(p.as_str()), display };
                    out.push(c);
                    assert(candidates_view(out@) =~= candidates_view(before).push(candidate_view(c)));
                }
            },
            None => {},
        }
        i = i + 1;
        assert(strs(seen@) =~= first_seen(opt_strs(resolved@.take(i as int))));
        assert(candidates_view(out@) =~= candidates_of(
            opt_strs(resolved@.take(i as int)),
            opt_str_view(home),
        ));
    }
    assert(resolved@.take(resolved@.len() as int) =~= resolved@);
    out
}

/// The candidates for the resolved directories, shown with the user's home directory as
/// `~`, whatever the environment gave for it.
pub fn finalize(resolved: &[Option<String>]) -> (r: Vec<Candidate>)
    ensures
        exists|home: Option<Seq<char>>|
            candidates_view(r@) == candidates_of(opt_strs(resolved@), home),
{
    let home: Option<String> = home_dir();
    finalize_in(resolved, as_opt_str(&home))
}

} // verus!
