use herdr_muster::config::Config;
use herdr_muster::sources::{basename, collapse_home, collapse_home_in, finalize_in, raw_paths_in};

#[test]
fn basename_and_collapse() {
    let home = dirs::home_dir().unwrap();
    assert_eq!(basename("/x/y/proj"), "proj");
    assert_eq!(collapse_home(&home.join("dev").to_string_lossy()), "~/dev");
}

#[test]
fn basename_edges() {
    assert_eq!(basename("/x/y/proj/"), "proj");
    assert_eq!(basename("/"), "/");
    assert_eq!(basename("/x/.."), "/x/..");
}

#[test]
fn collapse_against_given_home() {
    assert_eq!(collapse_home_in("/home/kim", Some("/home/kim")), "~");
    assert_eq!(collapse_home_in("/home/kim/dev/api", Some("/home/kim")), "~/dev/api");
    assert_eq!(collapse_home_in("/home/kimberly/x", Some("/home/kim")), "/home/kimberly/x");
    assert_eq!(collapse_home_in("/srv/x", None), "/srv/x");
}

#[test]
fn raw_paths_order_and_zoxide_switch() {
    let cfg = Config {
        paths: vec!["~/dev/api".to_string(), "/abs".to_string()],
        roots: vec!["~/dev".to_string()],
        use_zoxide: true,
    };
    let repos = vec!["/home/kim/dev/r1".to_string()];
    let z = vec!["/z1".to_string()];
    let raw = raw_paths_in(&cfg, Some("/home/kim"), &repos, &z);
    assert_eq!(raw, vec!["/home/kim/dev/api", "/abs", "/home/kim/dev/r1", "/z1"]);
    let off = Config { use_zoxide: false, ..cfg };
    let raw = raw_paths_in(&off, Some("/home/kim"), &repos, &z);
    assert_eq!(raw, vec!["/home/kim/dev/api", "/abs", "/home/kim/dev/r1"]);
}

#[test]
fn finalize_dedups_and_drops_unresolved() {
    let resolved = vec![
        Some("/home/kim/a".to_string()),
        None,
        Some("/home/kim/a".to_string()),
        Some("/srv/b".to_string()),
    ];
    let got = finalize_in(&resolved, Some("/home/kim"));
    assert_eq!(got.len(), 2);
    assert_eq!(got[0].path, "/home/kim/a");
    assert_eq!(got[0].display, "~/a");
    assert_eq!(got[1].path, "/srv/b");
    assert_eq!(got[1].display, "/srv/b");
}
