//! The client's argument grammar: one command word after the program
//! name, then its arguments. Path-existence checks and the home
//! directory lookup belong to the surrounding program; what is decided
//! here — which command, which argument, absolute-path shape, pattern
//! validity — is decided exactly.

use vstd::prelude::*;
use vstd::string::StrSliceExecFns;
use vstd::string::StringExecFns;
use crate::pattern::{CompiledPattern, pattern_ok};
use crate::protocol::eq_lit;

verus! {

/// Which suggested files to ignore.
pub enum Ignore {
    All,
    Search(CompiledPattern),
}

/// Which configuration value to set.
pub enum SetTarget {
    Repository(String),
    Home(String),
    PrivateKey(String),
}

/// A parsed client invocation.
pub enum Args {
    Init(Option<String>),
    Status,
    Backup,
    Config,
    Sync,
    SetValue(SetTarget),
    IgnoreFiles(Ignore),
    Restore(CompiledPattern),
    Add(String),
    Save(Option<String>),
}

/// `p` names an absolute path.
pub open spec fn absolute(p: Seq<char>) -> bool {
    p.len() >= 1 && p[0] == '/'
}

fn is_absolute(p: &String) -> (b: bool)
    ensures
        b == absolute(p@),
{
    let n: usize = p.as_str().unicode_len();
    n >= 1 && p.as_str().get_char(0) == '/'
}

/// The words joined by single spaces: how a trailing message is put
/// back together.
pub open spec fn join_sp(ts: Seq<String>) -> Seq<char>
    decreases ts.len(),
{
    if ts.len() == 0 {
        Seq::empty()
    } else if ts.len() == 1 {
        ts[0]@
    } else {
        join_sp(ts.drop_last()) + " "@ + ts.last()@
    }
}

fn join_spaces(ts: &Vec<String>, from: usize) -> (r: String)
    requires
        from <= ts@.len(),
    ensures
        r@ == join_sp(ts@.skip(from as int)),
{
    let mut out = String::new();
    let n: usize = ts.len();
    let mut i: usize = from;
    proof {
        assert(ts@.skip(from as int).take(0) =~= Seq::<String>::empty());
    }
    while i < n
        invariant
            from <= i <= n,
            n == ts@.len(),
            out@ == join_sp(ts@.skip(from as int).take(i - from)),
        decreases n - i,
    {
        if i > from {
            out.append(" ");
        }
        out.append(ts[i].as_str());
        proof {
            let part = ts@.skip(from as int);
            assert(part.take(i - from + 1).drop_last() =~= part.take(i - from));
            assert(part.take(i - from + 1).last() == ts@[i as int]);
            if i == from {
                assert(out@ =~= join_sp(part.take(1)));
            } else {
                assert(out@ =~= join_sp(part.take(i - from + 1)));
            }
        }
        i += 1;
    }
    proof {
        assert(ts@.skip(from as int).take(n - from) =~= ts@.skip(from as int));
    }
    out
}

impl Args {
    /// Parse one invocation, the program name first. An unknown or
    /// incomplete command fails with the usage text; a relative path
    /// where an absolute one is needed, or a pattern that does not
    /// compile, fails with its own message.
    pub fn from(args: Vec<String>) -> (r: Result<Args, String>)
        ensures
            ({
                let t = args@;
                &&& (r matches Ok(a) && a is Status <==> t.len() >= 2 && t[1]@ == "status"@)
                &&& (r matches Ok(a) && a is Backup <==> t.len() >= 2 && t[1]@ == "backup"@)
                &&& (r matches Ok(a) && a is Config <==> t.len() >= 2 && t[1]@ == "config"@)
                &&& (r matches Ok(a) && a is Sync <==> t.len() >= 2 && t[1]@ == "sync"@)
                &&& (r matches Ok(a) ==> (a matches Args::Init(repo) ==> t.len() >= 2 && t[1]@
                    == "init"@ && (repo matches Some(u) ==> t.len() >= 3 && u@ == t[2]@) && (
                    repo is None ==> t.len() == 2)))
                &&& (t.len() >= 2 && t[1]@ == "init"@ ==> r is Ok)
                &&& (r matches Ok(a) ==> (a matches Args::SetValue(sv) ==> t.len() >= 4 && t[1]@
                    == "set"@ && (sv matches SetTarget::Repository(u) ==> t[2]@ == "repo"@ && u@
                    == t[3]@) && (sv matches SetTarget::Home(u) ==> t[2]@ == "home"@ && u@ == t[3]@
                    && absolute(u@)) && (sv matches SetTarget::PrivateKey(u) ==> t[2]@
                    == "private_key"@ && u@ == t[3]@ && absolute(u@))))
                &&& (t.len() >= 4 && t[1]@ == "set"@ && t[2]@ == "repo"@ ==> (r matches Ok(a)
                    && a matches Args::SetValue(sv) && sv matches SetTarget::Repository(u) && u@
                    == t[3]@))
                &&& (t.len() >= 4 && t[1]@ == "set"@ && t[2]@ == "home"@ && absolute(t[3]@)
                    ==> (r matches Ok(a) && a matches Args::SetValue(sv) && sv matches
                    SetTarget::Home(u) && u@ == t[3]@))
                &&& (t.len() >= 4 && t[1]@ == "set"@ && t[2]@ == "home"@ && !absolute(t[3]@)
                    ==> r is Err)
                &&& (r matches Ok(a) ==> (a matches Args::IgnoreFiles(ig) ==> t.len() >= 3 && t[1]@
                    == "ignore"@ && (ig is All <==> t[2]@ == "all"@) && (ig matches
                    Ignore::Search(pat) ==> pat.pattern_view() == t[2]@ && pattern_ok(t[2]@))))
                &&& (t.len() >= 3 && t[1]@ == "ignore"@ && t[2]@ == "all"@ ==> (r matches Ok(a)
                    && a matches Args::IgnoreFiles(ig) && ig is All))
                &&& (t.len() >= 3 && t[1]@ == "ignore"@ && t[2]@ != "all"@ && pattern_ok(t[2]@)
                    ==> (r matches Ok(a) && a matches Args::IgnoreFiles(ig) && ig matches
                    Ignore::Search(pat) && pat.pattern_view() == t[2]@))
                &&& (r matches Ok(a) ==> (a matches Args::Restore(pat) ==> t.len() >= 3 && t[1]@
                    == "restore"@ && pat.pattern_view() == t[2]@ && pattern_ok(t[2]@)))
                &&& (t.len() >= 3 && t[1]@ == "restore"@ && pattern_ok(t[2]@) ==> (r matches
                    Ok(a) && a matches Args::Restore(pat) && pat.pattern_view() == t[2]@))
                &&& (r matches Ok(a) ==> (a matches Args::Add(p) ==> t.len() >= 3 && t[1]@
                    == "add"@ && p@ == t[2]@))
                &&& (t.len() >= 3 && t[1]@ == "add"@ ==> (r matches Ok(a) && a matches
                    Args::Add(p) && p@ == t[2]@))
                &&& (r matches Ok(a) ==> (a matches Args::Save(d) ==> t.len() >= 2 && t[1]@
                    == "save"@ && (d matches Some(m) ==> t.len() >= 3 && m@ == join_sp(
                    t.skip(2))) && (d is None ==> t.len() == 2)))
                &&& (t.len() >= 3 && t[1]@ == "save"@ ==> (r matches Ok(a) && a matches
                    Args::Save(d) && d matches Some(m) && m@ == join_sp(t.skip(2))))
                &&& (t.len() == 2 && t[1]@ == "save"@ ==> (r matches Ok(a) && a matches
                    Args::Save(d) && d is None))
                &&& (t.len() < 2 ==> (r matches Err(m) && m@ == usage_text()))
                &&& (t.len() >= 2 && t[1]@ != "init"@ && t[1]@ != "status"@ && t[1]@
                    != "backup"@ && t[1]@ != "config"@ && t[1]@ != "sync"@ && t[1]@ != "set"@
                    && t[1]@ != "ignore"@ && t[1]@ != "restore"@ && t[1]@ != "add"@ && t[1]@
                    != "save"@ ==> (r matches Err(m) && m@ == usage_text()))
                &&& (t.len() >= 2 && t[1]@ == "set"@ && !(t.len() >= 4 && (t[2]@ == "repo"@
                    || t[2]@ == "home"@ || t[2]@ == "private_key"@)) ==> (r matches Err(m)
                    && m@ == usage_text()))
                &&& (t.len() >= 4 && t[1]@ == "set"@ && (t[2]@ == "home"@ || t[2]@
                    == "private_key"@) && t[2]@ != "repo"@ && !absolute(t[3]@) ==> (r matches
                    Err(m) && m@ == "Please give the absolute path"@))
                &&& (t.len() >= 2 && t[1]@ == "ignore"@ && t.len() < 3 ==> (r matches Err(m)
                    && m@ == usage_text()))
                &&& (t.len() >= 3 && t[1]@ == "ignore"@ && t[2]@ != "all"@ && !pattern_ok(
                    t[2]@,
                ) ==> (r matches Err(m) && m@ == "Invalid pattern"@))
                &&& (t.len() >= 2 && t[1]@ == "restore"@ && t.len() < 3 ==> (r matches Err(m)
                    && m@ == usage_text()))
                &&& (t.len() >= 3 && t[1]@ == "restore"@ && !pattern_ok(t[2]@) ==> (r matches
                    Err(m) && m@ == "Invalid pattern"@))
                &&& (t.len() >= 2 && t[1]@ == "add"@ && t.len() < 3 ==> (r matches Err(m)
                    && m@ == usage_text()))
            }),
    {
        proof {
            reveal_strlit("init");
            reveal_strlit("status");
            reveal_strlit("backup");
            reveal_strlit("config");
            reveal_strlit("sync");
            reveal_strlit("set");
            reveal_strlit("repo");
            reveal_strlit("home");
            reveal_strlit("private_key");
            reveal_strlit("ignore");
            reveal_strlit("all");
            reveal_strlit("restore");
            reveal_strlit("add");
            reveal_strlit("save");
            assert("init"@ != "status"@) by {
                assert("init"@.len() == 4 && "status"@.len() == 6);
            }
            assert("init"@ != "backup"@) by {
                assert("init"@.len() == 4 && "backup"@.len() == 6);
            }
            assert("init"@ != "config"@) by {
                assert("init"@.len() == 4 && "config"@.len() == 6);
            }
            assert("init"@ != "sync"@) by {
                assert("init"@[0] == 'i' && "sync"@[0] == 's');
            }
            assert("init"@ != "set"@) by {
                assert("init"@.len() == 4 && "set"@.len() == 3);
            }
            assert("init"@ != "ignore"@) by {
                assert("init"@.len() == 4 && "ignore"@.len() == 6);
            }
            assert("init"@ != "restore"@) by {
                assert("init"@.len() == 4 && "restore"@.len() == 7);
            }
            assert("init"@ != "add"@) by {
                assert("init"@.len() == 4 && "add"@.len() == 3);
            }
            assert("init"@ != "save"@) by {
                assert("init"@[0] == 'i' && "save"@[0] == 's');
            }
            assert("status"@ != "backup"@) by {
                assert("status"@[0] == 's' && "backup"@[0] == 'b');
            }
            assert("status"@ != "config"@) by {
                assert("status"@[0] == 's' && "config"@[0] == 'c');
            }
            assert("status"@ != "sync"@) by {
                assert("status"@.len() == 6 && "sync"@.len() == 4);
            }
            assert("status"@ != "set"@) by {
                assert("status"@.len() == 6 && "set"@.len() == 3);
            }
            assert("status"@ != "ignore"@) by {
                assert("status"@[0] == 's' && "ignore"@[0] == 'i');
            }
            assert("status"@ != "restore"@) by {
                assert("status"@.len() == 6 && "restore"@.len() == 7);
            }
            assert("status"@ != "add"@) by {
                assert("status"@.len() == 6 && "add"@.len() == 3);
            }
            assert("status"@ != "save"@) by {
                assert("status"@.len() == 6 && "save"@.len() == 4);
            }
            assert("backup"@ != "config"@) by {
                assert("backup"@[0] == 'b' && "config"@[0] == 'c');
            }
            assert("backup"@ != "sync"@) by {
                assert("backup"@.len() == 6 && "sync"@.len() == 4);
            }
            assert("backup"@ != "set"@) by {
                assert("backup"@.len() == 6 && "set"@.len() == 3);
            }
            assert("backup"@ != "ignore"@) by {
                assert("backup"@[0] == 'b' && "ignore"@[0] == 'i');
            }
            assert("backup"@ != "restore"@) by {
                assert("backup"@.len() == 6 && "restore"@.len() == 7);
            }
            assert("backup"@ != "add"@) by {
                assert("backup"@.len() == 6 && "add"@.len() == 3);
            }
            assert("backup"@ != "save"@) by {
                assert("backup"@.len() == 6 && "save"@.len() == 4);
            }
            assert("config"@ != "sync"@) by {
                assert("config"@.len() == 6 && "sync"@.len() == 4);
            }
            assert("config"@ != "set"@) by {
                assert("config"@.len() == 6 && "set"@.len() == 3);
            }
            assert("config"@ != "ignore"@) by {
                assert("config"@[0] == 'c' && "ignore"@[0] == 'i');
            }
            assert("config"@ != "restore"@) by {
                assert("config"@.len() == 6 && "restore"@.len() == 7);
            }
            assert("config"@ != "add"@) by {
                assert("config"@.len() == 6 && "add"@.len() == 3);
            }
            assert("config"@ != "save"@) by {
                assert("config"@.len() == 6 && "save"@.len() == 4);
            }
            assert("sync"@ != "set"@) by {
                assert("sync"@.len() == 4 && "set"@.len() == 3);
            }
            assert("sync"@ != "ignore"@) by {
                assert("sync"@.len() == 4 && "ignore"@.len() == 6);
            }
            assert("sync"@ != "restore"@) by {
                assert("sync"@.len() == 4 && "restore"@.len() == 7);
            }
            assert("sync"@ != "add"@) by {
                assert("sync"@.len() == 4 && "add"@.len() == 3);
            }
            assert("sync"@ != "save"@) by {
                assert("sync"@[1] == 'y' && "save"@[1] == 'a');
            }
            assert("set"@ != "ignore"@) by {
                assert("set"@.len() == 3 && "ignore"@.len() == 6);
            }
            assert("set"@ != "restore"@) by {
                assert("set"@.len() == 3 && "restore"@.len() == 7);
            }
            assert("set"@ != "add"@) by {
                assert("set"@[0] == 's' && "add"@[0] == 'a');
            }
            assert("set"@ != "save"@) by {
                assert("set"@.len() == 3 && "save"@.len() == 4);
            }
            assert("ignore"@ != "restore"@) by {
                assert("ignore"@.len() == 6 && "restore"@.len() == 7);
            }
            assert("ignore"@ != "add"@) by {
                assert("ignore"@.len() == 6 && "add"@.len() == 3);
            }
            assert("ignore"@ != "save"@) by {
                assert("ignore"@.len() == 6 && "save"@.len() == 4);
            }
            assert("restore"@ != "add"@) by {
                assert("restore"@.len() == 7 && "add"@.len() == 3);
            }
            assert("restore"@ != "save"@) by {
                assert("restore"@.len() == 7 && "save"@.len() == 4);
            }
            assert("add"@ != "save"@) by {
                assert("add"@.len() == 3 && "save"@.len() == 4);
            }
            assert("repo"@ != "home"@) by {
                assert("repo"@[0] == 'r' && "home"@[0] == 'h');
            }
        }
        if args.len() < 2 {
            return Err(usage());
        }
        let cmd = &args[1];
        if eq_lit(cmd, "init") {
            if args.len() >= 3 {
                return Ok(Args::Init(Some(args[2].clone())));
            }
            return Ok(Args::Init(None));
        }
        if eq_lit(cmd, "status") {
            return Ok(Args::Status);
        }
        if eq_lit(cmd, "backup") {
            return Ok(Args::Backup);
        }
        if eq_lit(cmd, "config") {
            return Ok(Args::Config);
        }
        if eq_lit(cmd, "sync") {
            return Ok(Args::Sync);
        }
        if eq_lit(cmd, "set") {
            if args.len() >= 4 {
                if eq_lit(&args[2], "repo") {
                    return Ok(Args::SetValue(SetTarget::Repository(args[3].clone())));
                }
                if eq_lit(&args[2], "home") {
                    if !is_absolute(&args[3]) {
                        return Err("Please give the absolute path".to_owned());
                    }
                    return Ok(Args::SetValue(SetTarget::Home(args[3].clone())));
                }
                if eq_lit(&args[2], "private_key") {
                    if !is_absolute(&args[3]) {
                        return Err("Please give the absolute path".to_owned());
                    }
                    return Ok(Args::SetValue(SetTarget::PrivateKey(args[3].clone())));
                }
            }
            return Err(usage());
        }
        if eq_lit(cmd, "ignore") {
            if args.len() >= 3 {
                if eq_lit(&args[2], "all") {
                    return Ok(Args::IgnoreFiles(Ignore::All));
                }
                match CompiledPattern::compile(args[2].as_str()) {
                    Some(pat) => {
                        return Ok(Args::IgnoreFiles(Ignore::Search(pat)));
                    },
                    None => {
                        return Err("Invalid pattern".to_owned());
                    },
                }
            }
            return Err(usage());
        }
        if eq_lit(cmd, "restore") {
            if args.len() >= 3 {
                match CompiledPattern::compile(args[2].as_str()) {
                    Some(pat) => {
                        return Ok(Args::Restore(pat));
                    },
                    None => {
                        return Err("Invalid pattern".to_owned());
                    },
                }
            }
            return Err(usage());
        }
        if eq_lit(cmd, "add") {
            if args.len() >= 3 {
                return Ok(Args::Add(args[2].clone()));
            }
            return Err(usage());
        }
        if eq_lit(cmd, "save") {
            if args.len() >= 3 {
                let description = join_spaces(&args, 2);
                return Ok(Args::Save(Some(description)));
            }
            return Ok(Args::Save(None));
        }
        Err(usage())
    }
}

/// The usage text shown when no command matches.
pub open spec fn usage_text() -> Seq<char> {
    "Dotfiles importer\n\nUsage:\n    dimport <command> [<args>]\n\nCommands:\n    init [<url>]                                Write sane defaults into the configuration, with an optional repository url\n    status                                      Show changed files and suggested files\n    backup                                      Back up conflicting dotfiles, overwriting any prior backup\n    config                                      Show the current configuration\n    sync                                        Synchronize now\n    set [repo|home|private_key] [<url>|<path>]  Configure the importer\n    ignore [all|<regex>]                        Ignore all suggested files, or those a pattern matches\n    restore <regex>                             Restore removed or changed files\n    add <path>                                  Add a file to the repository\n    save [<message>]                            Commit and push, with an optional message\n"@
}

/// The usage text, exactly.
fn usage() -> (r: String)
    ensures
        r@ == usage_text(),
{
    "Dotfiles importer\n\nUsage:\n    dimport <command> [<args>]\n\nCommands:\n    init [<url>]                                Write sane defaults into the configuration, with an optional repository url\n    status                                      Show changed files and suggested files\n    backup                                      Back up conflicting dotfiles, overwriting any prior backup\n    config                                      Show the current configuration\n    sync                                        Synchronize now\n    set [repo|home|private_key] [<url>|<path>]  Configure the importer\n    ignore [all|<regex>]                        Ignore all suggested files, or those a pattern matches\n    restore <regex>                             Restore removed or changed files\n    add <path>                                  Add a file to the repository\n    save [<message>]                            Commit and push, with an optional message\n".to_owned()
}

} // verus!
