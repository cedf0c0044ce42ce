use vstd::prelude::*;
use crate::paths::{home_dir, path_join, join_path, as_opt_str, opt_str_view};

verus! {

/// Where projects come from: paths always listed, roots scanned one level deep for git
/// repositories, and whether zoxide's list is merged in.
#[derive(Debug, Clone)]
pub struct Config {
    pub paths: Vec<String>,
    pub roots: Vec<String>,
    pub use_zoxide: bool,
}

impl Default for Config {
    /// No paths, no roots, zoxide on.
    fn default() -> (r: Config)
        ensures
            r.paths@.len() == 0,
            r.roots@.len() == 0,
            r.use_zoxide,
    {
        Config { paths: Vec::new(), roots: Vec::new(), use_zoxide: true }
    }
}

/// Whether `s` begins with `~/`.
pub open spec fn home_relative(s: Seq<char>) -> bool {
    s.len() >= 2 && s[0] == '~' && s[1] == '/'
}

/// `s` with a leading `~` standing for the home directory `home`: `~` alone is the home,
/// `~/rest` is `rest` joined onto it; anything else, or no home known, leaves `s` as it is.
pub open spec fn tilde_expanded(s: Seq<char>, home: Option<Seq<char>>) -> Seq<char> {
    match home {
        Some(h) => if s == seq!['~'] {
            h
        } else if home_relative(s) {
            join_path(h, s.skip(2))
        } else {
            s
        },
        None => s,
    }
}

/// `s` with its leading `~` expanded against the home directory `home`.
pub fn expand_tilde_in(s: &str, home: Option<&str>) -> (r: String)
    ensures
        r@ == tilde_expanded(s@, opt_str_view(home)),
{
    let n: usize = s.unicode_len();
    match home {
        Some(h) => {
            if n == 1 && s.get_char(0) == '~' {
                assert(s@ =~= seq!['~']);
                return String::from_str(h);
            }
            if n >= 2 && s.get_char(0) == '~' && s.get_char(1) == '/' {
                let rest: &str = s.substring_char(2, n);
                assert(rest@ =~= s@.skip(2));
                return path_join(h, rest);
            }
            if n == 1 {
                assert(s@ != seq!['~']);
            }
            String::from_str(s)
        },
        None => String::from_str(s),
    }
}

/// `s` with its leading `~` expanded against the user's home directory. What the home is,
/// the environment decides; the result is the expansion against whatever it was.
pub fn expand_tilde(s: &str) -> (r: String)
    ensures
        exists|home: Option<Seq<char>>| r@ == tilde_expanded(s@, home),
        s@ != seq!['~'] && !home_relative(s@) ==> r@ == s@,
{
    let home: Option<String> = home_dir();
    let r: String = expand_tilde_in(s, as_opt_str(&home));
    r
}

} // verus!
