//! Options of the command-line tool that starts and stops the daemon.

use vstd::prelude::*;

use crate::text::chars_of;

verus! {

/// Where the daemon's configuration and pid file are, and whether the tool
/// prints what it does.
#[derive(Debug)]
pub struct DaemonOpts {
    pub config: String,
    pub pid: String,
    pub silent: bool,
}

/// The options given on the command line; each one left out keeps its
/// default. `pid` names the directory that holds the pid file.
#[derive(Debug)]
pub struct CmdArgs {
    pub config: Option<String>,
    pub pid: Option<String>,
    pub silent: bool,
}

/// The pid file used when none is given.
pub open spec fn default_pid_path() -> Seq<char> {
    "/tmp/shortied.pid"@
}

/// The name of the pid file within its directory.
pub open spec fn pid_file_name() -> Seq<char> {
    "shortied.pid"@
}

/// Where the configuration lies under the home directory.
pub open spec fn config_dir_name() -> Seq<char> {
    ".config/shortie"@
}

/// The relative path `rel` under the directory `dir`: a `/` goes between
/// them unless `dir` is empty or already ends with one.
pub open spec fn join_path(dir: Seq<char>, rel: Seq<char>) -> Seq<char> {
    if dir.len() == 0 {
        rel
    } else if dir.last() == '/' {
        dir + rel
    } else {
        dir + seq!['/'] + rel
    }
}

/// The relative path `rel` under the directory `dir` (see [`join_path`]).
pub fn path_under(dir: &str, rel: &str) -> (res: String)
    ensures
        res@ == join_path(dir@, rel@),
{
    let cs = chars_of(dir);
    let mut res = String::new();
    res.append(dir);
    if cs.len() > 0 && cs[cs.len() - 1] != '/' {
        res.append("/");
        proof {
            reveal_strlit("/");
        }
        assert("/"@ =~= seq!['/']);
    }
    res.append(rel);
    res
}

impl DaemonOpts {
    /// The default options for the home directory `home`: the configuration
    /// in `.config/shortie` under it, the pid file `/tmp/shortied.pid`, and
    /// output on.
    pub fn new(home: &str) -> (res: Self)
        ensures
            res.config@ == join_path(home@, config_dir_name()),
            res.pid@ == default_pid_path(),
            !res.silent,
    {
        DaemonOpts {
            config: path_under(home, ".config/shortie"),
            pid: "/tmp/shortied.pid".to_owned(),
            silent: false,
        }
    }

    /// The path of the pid file.
    pub fn pid_file_path(&self) -> (res: &str)
        ensures
            res@ == self.pid@,
    {
        self.pid.as_str()
    }
}

/// The options to run with: a configuration directory given in `args`
/// replaces the default one, a pid directory given in `args` puts the pid
/// file `shortied.pid` in it, and `silent` is as given.
pub fn make_opts(args: CmdArgs, defaults: DaemonOpts) -> (res: DaemonOpts)
    ensures
        res.config@ == match args.config {
            Some(c) => c@,
            None => defaults.config@,
        },
        res.pid@ == match args.pid {
            Some(dir) => join_path(dir@, pid_file_name()),
            None => defaults.pid@,
        },
        res.silent == args.silent,
{
    let mut opts = defaults;
    if let Some(config) = args.config {
        opts.config = config;
    }
    if let Some(dir) = args.pid {
        opts.pid = path_under(dir.as_str(), "shortied.pid");
    }
    opts.silent = args.silent;
    opts
}

/// The status report of the daemon, one line per entry: whether it runs and,
/// if it does, its pid.
pub open spec fn status_spec(running: bool, pid: Seq<char>) -> Seq<char> {
    "========= Shortie =========\n"@ + "Status: "@ + (if running {
        "running"@
    } else {
        "not running"@
    }) + "\n"@ + "PID: "@ + (if running {
        pid
    } else {
        "-"@
    }) + "\n"@ + "==========================="@
}

/// The status report of the daemon (see [`status_spec`]).
pub fn status_report(running: bool, pid: &str) -> (res: String)
    ensures
        res@ == status_spec(running, pid@),
{
    let mut out = String::new();
    out.append("========= Shortie =========\n");
    out.append("Status: ");
    if running {
        out.append("running");
    } else {
        out.append("not running");
    }
    out.append("\n");
    out.append("PID: ");
    if running {
        out.append(pid);
    } else {
        out.append("-");
    }
    out.append("\n");
    out.append("===========================");
    out
}

} // verus!
