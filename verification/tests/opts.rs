use shortie::opts::{make_opts, path_under, status_report, CmdArgs, DaemonOpts};

#[test]
fn default_options() {
    let opts = DaemonOpts::new("/home/u");
    assert_eq!(opts.config, "/home/u/.config/shortie");
    assert_eq!(opts.pid_file_path(), "/tmp/shortied.pid");
    assert!(!opts.silent);
    assert_eq!(DaemonOpts::new("/home/u/").config, "/home/u/.config/shortie");
}

#[test]
fn given_options_replace_defaults() {
    let defaults = DaemonOpts::new("/d");
    let opts = make_opts(
        CmdArgs { config: Some("/c".to_string()), pid: Some("/run/user".to_string()), silent: true },
        defaults,
    );
    assert_eq!(opts.config, "/c");
    assert_eq!(opts.pid_file_path(), "/run/user/shortied.pid");
    assert_eq!(
        std::path::Path::new(opts.pid_file_path()).parent(),
        Some(std::path::Path::new("/run/user"))
    );
    assert!(opts.silent);
}

#[test]
fn pid_directory_with_trailing_slash() {
    let opts = make_opts(
        CmdArgs { config: None, pid: Some("/var/tmp/".to_string()), silent: false },
        DaemonOpts::new("/d"),
    );
    assert_eq!(opts.pid_file_path(), "/var/tmp/shortied.pid");
}

#[test]
fn missing_options_keep_defaults() {
    let defaults = DaemonOpts::new("/d");
    let opts = make_opts(CmdArgs { config: None, pid: None, silent: false }, defaults);
    assert_eq!(opts.config, "/d/.config/shortie");
    assert_eq!(opts.pid_file_path(), "/tmp/shortied.pid");
    assert!(!opts.silent);
}

#[test]
fn path_under_matches_path_join() {
    for (dir, rel) in [("/a", "b"), ("/a/", "b"), ("", "b"), ("rel/dir", "x.pid")] {
        let joined = std::path::PathBuf::from(dir).join(rel);
        assert_eq!(path_under(dir, rel), joined.to_string_lossy());
    }
}

#[test]
fn status_lines() {
    assert_eq!(
        status_report(true, "1234"),
        "========= Shortie =========\nStatus: running\nPID: 1234\n==========================="
    );
    assert_eq!(
        status_report(false, "1234"),
        "========= Shortie =========\nStatus: not running\nPID: -\n==========================="
    );
}
