use herdr_muster::config::{expand_tilde, expand_tilde_in, Config};
use std::path::PathBuf;

#[test]
fn expand_tilde_cases() {
    let home = dirs::home_dir().unwrap();
    assert_eq!(PathBuf::from(expand_tilde("~")), home);
    assert_eq!(PathBuf::from(expand_tilde("~/dev")), home.join("dev"));
    assert_eq!(PathBuf::from(expand_tilde("/abs")), PathBuf::from("/abs"));
}

#[test]
fn expand_tilde_against_given_home() {
    assert_eq!(expand_tilde_in("~", Some("/home/kim")), "/home/kim");
    assert_eq!(expand_tilde_in("~/dev/api", Some("/home/kim")), "/home/kim/dev/api");
    assert_eq!(expand_tilde_in("~/dev", Some("/home/kim/")), "/home/kim/dev");
    assert_eq!(expand_tilde_in("~/dev", None), "~/dev");
    assert_eq!(expand_tilde_in("~", None), "~");
    assert_eq!(expand_tilde_in("~kim/dev", Some("/home/kim")), "~kim/dev");
    assert_eq!(expand_tilde_in("rel/~", Some("/home/kim")), "rel/~");
    assert_eq!(expand_tilde_in("~//abs", Some("/home/kim")), "/abs");
}

#[test]
fn default_config_has_zoxide_on() {
    let cfg = Config::default();
    assert!(cfg.paths.is_empty() && cfg.roots.is_empty() && cfg.use_zoxide);
}
