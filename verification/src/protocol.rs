//! The fixed-size framed wire protocol and its command grammar.
//!
//! A request is one ASCII line of space-separated words, zero-padded to
//! `BUFFER_SIZE` bytes; a response starts with `O` (success) or `E`
//! (failure), a space, and a human-readable message, padded the same
//! way. Splitting is on single spaces, so doubled spaces yield empty
//! words, exactly as the daemon has always read them.

use vstd::prelude::*;
use vstd::string::StrSliceExecFns;
use vstd::string::StringExecFns;
use vstd::string::StringSliceAdditionalSpecFns;
use crate::BUFFER_SIZE;

verus! {

/// How many leading characters of `s` come before the first space.
pub open spec fn head_len(s: Seq<char>) -> nat
    decreases s.len(),
{
    if s.len() == 0 {
        0
    } else if s[0] == ' ' {
        0
    } else {
        1 + head_len(s.drop_first())
    }
}

pub proof fn lemma_head_len(s: Seq<char>)
    ensures
        head_len(s) <= s.len(),
        head_len(s) < s.len() ==> s[head_len(s) as int] == ' ',
        forall|k: int| 0 <= k < head_len(s) ==> s[k] != ' ',
    decreases s.len(),
{
    if s.len() > 0 && s[0] != ' ' {
        lemma_head_len(s.drop_first());
        assert forall|k: int| 0 <= k < head_len(s) implies s[k] != ' ' by {
            if k > 0 {
                assert(s.drop_first()[k - 1] == s[k]);
            }
        }
    }
}

/// The words of `s`, split at every single space.
pub open spec fn split_sp(s: Seq<char>) -> Seq<Seq<char>>
    decreases s.len(),
    via split_sp_decreases
{
    let h = head_len(s) as int;
    if h == s.len() {
        seq![s]
    } else {
        seq![s.take(h)] + split_sp(s.skip(h + 1))
    }
}

#[via_fn]
proof fn split_sp_decreases(s: Seq<char>) {
    lemma_head_len(s);
}

/// The position of the first space, or the length when there is none.
fn head_count(s: &str) -> (h: usize)
    ensures
        h == head_len(s@),
{
    let n: usize = s.unicode_len();
    let mut i: usize = 0;
    while i < n
        invariant
            0 <= i <= n,
            n == s@.len(),
            forall|k: int| 0 <= k < i ==> s@[k] != ' ',
        decreases n - i,
    {
        if s.get_char(i) == ' ' {
            proof {
                lemma_head_len(s@);
            }
            return i;
        }
        i += 1;
    }
    proof {
        lemma_head_len(s@);
    }
    n
}

/// Split `s` at every single space; doubled spaces give empty words.
pub fn split_spaces(s: &str) -> (r: Vec<String>)
    ensures
        r@.len() == split_sp(s@).len(),
        forall|k: int| #![trigger r@[k]] 0 <= k < r@.len() ==> r@[k]@ == split_sp(s@)[k],
    decreases s@.len(),
{
    let n: usize = s.unicode_len();
    let h = head_count(s);
    proof {
        lemma_head_len(s@);
    }
    if h == n {
        let mut r: Vec<String> = Vec::new();
        r.push(s.to_owned());
        r
    } else {
        let head = s.substring_char(0, h).to_owned();
        let rest = s.substring_char(h + 1, n);
        let mut r = split_spaces(rest);
        r.insert(0, head);
        proof {
            assert(rest@ == s@.skip(h + 1));
            assert forall|k: int| #![trigger r@[k]] 0 <= k < r@.len() implies r@[k]@
                == split_sp(s@)[k] by {
                if k > 0 {
                    assert(r@[k] == r@.subrange(1, r@.len() as int)[k - 1]);
                    assert(split_sp(s@)[k] == split_sp(s@.skip(h + 1))[k - 1]);
                }
            }
        }
        r
    }
}

/// Character-for-character comparison with a literal.
pub fn eq_lit(a: &String, b: &str) -> (r: bool)
    ensures
        r == (a@ == b@),
{
    let al: usize = a.as_str().unicode_len();
    let bl: usize = b.unicode_len();
    if al != bl {
        return false;
    }
    let mut i: usize = 0;
    while i < al
        invariant
            0 <= i <= al,
            al == a@.len(),
            bl == b@.len(),
            al == bl,
            forall|k: int| 0 <= k < i ==> a@[k] == b@[k],
        decreases al - i,
    {
        if a.as_str().get_char(i) != b.get_char(i) {
            return false;
        }
        i += 1;
    }
    proof {
        assert(a@ =~= b@);
    }
    true
}

/// A parsed daemon command.
pub enum Request {
    Status,
    Config,
    Sync,
    SetRepo(String),
    SetHome(String),
    SetPrivateKey(String),
    IgnoreAll,
    IgnoreRegex(String),
    Restore(String),
    Add(String),
    Save(Option<String>),
    Invalid,
}

/// Parse one request line into a command. A line that names no known
/// command, or a known command missing its argument, parses as
/// `Invalid`; extra words after an argument-less command are ignored,
/// and everything after `save ` is the commit message.
pub fn parse_request(s: &String) -> (r: Request)
    ensures
        ({
            let t = split_sp(s@);
            &&& (r is Status <==> t[0] == "status"@)
            &&& (r is Config <==> t[0] == "config"@)
            &&& (r is Sync <==> t[0] == "sync"@)
            &&& (r matches Request::SetRepo(u) ==> t.len() >= 3 && t[0] == "set"@ && t[1]
                == "repo"@ && u@ == t[2])
            &&& (t.len() >= 3 && t[0] == "set"@ && t[1] == "repo"@ ==> (r matches
                Request::SetRepo(u) && u@ == t[2]))
            &&& (r matches Request::SetHome(u) ==> t.len() >= 3 && t[0] == "set"@ && t[1]
                == "home"@ && u@ == t[2])
            &&& (t.len() >= 3 && t[0] == "set"@ && t[1] == "home"@ ==> (r matches
                Request::SetHome(u) && u@ == t[2]))
            &&& (r matches Request::SetPrivateKey(u) ==> t.len() >= 3 && t[0] == "set"@
                && t[1] == "private_key"@ && u@ == t[2])
            &&& (t.len() >= 3 && t[0] == "set"@ && t[1] == "private_key"@ ==> (r matches
                Request::SetPrivateKey(u) && u@ == t[2]))
            &&& (r is IgnoreAll <==> t.len() >= 2 && t[0] == "ignore"@ && t[1] == "all"@)
            &&& (r matches Request::IgnoreRegex(u) ==> t.len() >= 2 && t[0] == "ignore"@
                && t[1] != "all"@ && u@ == t[1])
            &&& (t.len() >= 2 && t[0] == "ignore"@ && t[1] != "all"@ ==> (r matches
                Request::IgnoreRegex(u) && u@ == t[1]))
            &&& (r matches Request::Restore(u) ==> t.len() >= 2 && t[0] == "restore"@ && u@
                == t[1])
            &&& (t.len() >= 2 && t[0] == "restore"@ ==> (r matches Request::Restore(u) && u@
                == t[1]))
            &&& (r matches Request::Add(u) ==> t.len() >= 2 && t[0] == "add"@ && u@ == t[1])
            &&& (t.len() >= 2 && t[0] == "add"@ ==> (r matches Request::Add(u) && u@ == t[1]))
            &&& (r matches Request::Save(d) ==> t[0] == "save"@ && (d matches Some(m) ==> t.len()
                >= 2 && m@ == s@.skip(5)) && (d is None ==> t.len() == 1))
            &&& (t[0] == "save"@ && t.len() >= 2 ==> (r matches Request::Save(d) && d matches
                Some(m) && m@ == s@.skip(5)))
            &&& (t[0] == "save"@ && t.len() == 1 ==> (r matches Request::Save(d) && d is None))
        }),
{
    let toks = split_spaces(s.as_str());
    proof {
        reveal_strlit("status");
        reveal_strlit("config");
        reveal_strlit("sync");
        reveal_strlit("set");
        reveal_strlit("repo");
        reveal_strlit("home");
        reveal_strlit("private_key");
        reveal_strlit("ignore");
        reveal_strlit("all");
        reveal_strlit("restore");
        reveal_strlit("add");
        reveal_strlit("save");
        assert("status"@ != "config"@) by {
            assert("status"@[0] == 's');
            assert("config"@[0] == 'c');
        }
        assert("status"@ != "ignore"@) by {
            assert("status"@[0] == 's');
            assert("ignore"@[0] == 'i');
        }
        assert("config"@ != "ignore"@) by {
            assert("config"@[0] == 'c');
            assert("ignore"@[0] == 'i');
        }
        assert("sync"@ != "save"@) by {
            assert("sync"@[1] == 'y');
            assert("save"@[1] == 'a');
        }
        assert("set"@ != "add"@) by {
            assert("set"@[0] == 's');
            assert("add"@[0] == 'a');
        }
        assert(split_sp(s@).len() >= 1);
        assert(toks@[0]@ == split_sp(s@)[0]);
    }
    let t0 = &toks[0];
    proof {
        assert(t0@ == split_sp(s@)[0]);
    }
    if eq_lit(t0, "status") {
        return Request::Status;
    }
    if eq_lit(t0, "config") {
        return Request::Config;
    }
    if eq_lit(t0, "sync") {
        return Request::Sync;
    }
    if eq_lit(t0, "set") {
        if toks.len() >= 3 {
            proof {
                assert(toks@[1]@ == split_sp(s@)[1]);
                assert(toks@[2]@ == split_sp(s@)[2]);
                assert("repo"@ != "home"@) by {
                    assert("repo"@[0] == 'r');
                    assert("home"@[0] == 'h');
                }
            }
            if eq_lit(&toks[1], "repo") {
                return Request::SetRepo(toks[2].clone());
            }
            if eq_lit(&toks[1], "home") {
                return Request::SetHome(toks[2].clone());
            }
            if eq_lit(&toks[1], "private_key") {
                return Request::SetPrivateKey(toks[2].clone());
            }
        }
        return Request::Invalid;
    }
    if eq_lit(t0, "ignore") {
        if toks.len() >= 2 {
            proof {
                assert(toks@[1]@ == split_sp(s@)[1]);
            }
            if eq_lit(&toks[1], "all") {
                return Request::IgnoreAll;
            }
            return Request::IgnoreRegex(toks[1].clone());
        }
        return Request::Invalid;
    }
    if eq_lit(t0, "restore") {
        if toks.len() >= 2 {
            proof {
                assert(toks@[1]@ == split_sp(s@)[1]);
            }
            return Request::Restore(toks[1].clone());
        }
        return Request::Invalid;
    }
    if eq_lit(t0, "add") {
        if toks.len() >= 2 {
            proof {
                assert(toks@[1]@ == split_sp(s@)[1]);
            }
            return Request::Add(toks[1].clone());
        }
        return Request::Invalid;
    }
    if eq_lit(t0, "save") {
        if toks.len() >= 2 {
            proof {
                lemma_save_skip(s@);
            }
            let n: usize = s.as_str().unicode_len();
            let d = s.as_str().substring_char(5, n).to_owned();
            proof {
                assert(d@ =~= s@.skip(5));
            }
            return Request::Save(Some(d));
        }
        return Request::Save(None);
    }
    Request::Invalid
}

/// When the line starts with the word `save` and holds more, the
/// message starts right after the first space.
proof fn lemma_save_skip(s: Seq<char>)
    requires
        split_sp(s)[0] == "save"@,
        split_sp(s).len() >= 2,
    ensures
        s.len() >= 5,
        head_len(s) == 4,
{
    reveal_strlit("save");
    lemma_head_len(s);
    if head_len(s) == s.len() {
        assert(split_sp(s) == seq![s]);
        assert(split_sp(s).len() == 1);
    }
    assert(head_len(s) < s.len());
    assert(split_sp(s)[0] == s.take(head_len(s) as int));
    assert(s.take(head_len(s) as int).len() == head_len(s));
    assert(head_len(s) == 4);
}

/// What the daemon should do for a request that arrives while no valid
/// configuration exists: write configuration values, show the raw
/// configuration, acknowledge a write-less command, or just re-check
/// the configuration and report.
pub enum ImportlessAction {
    WriteInit { home: String, repo: Option<String> },
    ShowConfig,
    WriteSet { property: String, value: String },
    AcknowledgeOnly,
    CheckConfig,
}

/// Decide the configuration-only service of a request: `init` records
/// the home path and, when given, the repository; `set` records one
/// property; `config` shows the file; anything else only re-checks the
/// configuration. Locating an ssh key for `init` is the caller's step.
pub fn get_response_importless(request_raw: &String) -> (r: ImportlessAction)
    ensures
        ({
            let t = split_sp(request_raw@);
            &&& (t[0] == "init"@ && t.len() >= 3 ==> (r matches ImportlessAction::WriteInit {
                home,
                repo,
            } && home@ == t[1] && (repo matches Some(u) && u@ == t[2])))
            &&& (t[0] == "init"@ && t.len() == 2 ==> (r matches ImportlessAction::WriteInit {
                home,
                repo,
            } && home@ == t[1] && repo is None))
            &&& (t[0] == "init"@ && t.len() == 1 ==> r is AcknowledgeOnly)
            &&& (r is ShowConfig <==> t[0] == "config"@)
            &&& (t[0] == "set"@ && t.len() >= 3 && t[1] == "repo"@ ==> (r matches
                ImportlessAction::WriteSet { property, value } && property@ == "repository"@
                && value@ == t[2]))
            &&& (t[0] == "set"@ && t.len() >= 3 && t[1] == "home"@ ==> (r matches
                ImportlessAction::WriteSet { property, value } && property@ == "home_path"@
                && value@ == t[2]))
            &&& (t[0] == "set"@ && t.len() >= 3 && t[1] == "private_key"@ ==> (r matches
                ImportlessAction::WriteSet { property, value } && property@
                == "private_key_path"@ && value@ == t[2]))
            &&& (t[0] != "init"@ && t[0] != "config"@ && t[0] != "set"@ ==> r is CheckConfig)
        }),
{
    let toks = split_spaces(request_raw.as_str());
    proof {
        reveal_strlit("init");
        reveal_strlit("config");
        reveal_strlit("set");
        reveal_strlit("repo");
        reveal_strlit("home");
        reveal_strlit("private_key");
        reveal_strlit("repository");
        reveal_strlit("home_path");
        reveal_strlit("private_key_path");
        assert("init"@ != "config"@) by {
            assert("init"@.len() == 4 && "config"@.len() == 6);
        }
        assert("init"@ != "set"@) by {
            assert("init"@.len() == 4 && "set"@.len() == 3);
        }
        assert("config"@ != "set"@) by {
            assert("config"@.len() == 6 && "set"@.len() == 3);
        }
        assert("repo"@ != "home"@) by {
            assert("repo"@[0] == 'r' && "home"@[0] == 'h');
        }
        assert(split_sp(request_raw@).len() >= 1);
        assert(toks@[0]@ == split_sp(request_raw@)[0]);
    }
    let t0 = &toks[0];
    proof {
        assert(t0@ == split_sp(request_raw@)[0]);
    }
    if eq_lit(t0, "init") {
        if toks.len() >= 3 {
            proof {
                assert(toks@[1]@ == split_sp(request_raw@)[1]);
                assert(toks@[2]@ == split_sp(request_raw@)[2]);
            }
            return ImportlessAction::WriteInit {
                home: toks[1].clone(),
                repo: Some(toks[2].clone()),
            };
        }
        if toks.len() == 2 {
            proof {
                assert(toks@[1]@ == split_sp(request_raw@)[1]);
            }
            return ImportlessAction::WriteInit { home: toks[1].clone(), repo: None };
        }
        return ImportlessAction::AcknowledgeOnly;
    }
    if eq_lit(t0, "config") {
        return ImportlessAction::ShowConfig;
    }
    if eq_lit(t0, "set") {
        if toks.len() >= 3 {
            proof {
                assert(toks@[1]@ == split_sp(request_raw@)[1]);
                assert(toks@[2]@ == split_sp(request_raw@)[2]);
            }
            if eq_lit(&toks[1], "repo") {
                return ImportlessAction::WriteSet {
                    property: "repository".to_owned(),
                    value: toks[2].clone(),
                };
            }
            if eq_lit(&toks[1], "home") {
                return ImportlessAction::WriteSet {
                    property: "home_path".to_owned(),
                    value: toks[2].clone(),
                };
            }
            if eq_lit(&toks[1], "private_key") {
                return ImportlessAction::WriteSet {
                    property: "private_key_path".to_owned(),
                    value: toks[2].clone(),
                };
            }
        }
        return ImportlessAction::AcknowledgeOnly;
    }
    ImportlessAction::CheckConfig
}

/// One word of the protocol's first byte: a positive or negative reply,
/// or a frame that fits neither.
pub enum Response {
    Positive(String),
    Negative(String),
    Malformed,
}

/// Strip the `O ` / `E ` prefix from a response frame, as the client
/// does before printing.
pub fn parse_response(resp: &String) -> (r: Response)
    ensures
        r matches Response::Positive(m) ==> resp@.len() >= 2 && resp@[0] == 'O' && resp@[1]
            == ' ' && m@ == resp@.skip(2),
        r matches Response::Negative(m) ==> resp@.len() >= 2 && resp@[0] == 'E' && resp@[1]
            == ' ' && m@ == resp@.skip(2),
        resp@.len() >= 2 && resp@[0] == 'O' && resp@[1] == ' ' ==> r is Positive,
        resp@.len() >= 2 && resp@[0] == 'E' && resp@[1] == ' ' ==> r is Negative,
{
    let n: usize = resp.as_str().unicode_len();
    if n < 2 {
        return Response::Malformed;
    }
    let c0 = resp.as_str().get_char(0);
    let c1 = resp.as_str().get_char(1);
    if c1 != ' ' {
        return Response::Malformed;
    }
    let body = resp.as_str().substring_char(2, n).to_owned();
    if c0 == 'O' {
        Response::Positive(body)
    } else if c0 == 'E' {
        Response::Negative(body)
    } else {
        Response::Malformed
    }
}

/// Frame a reply: `O ` for success, `E ` for failure, then the message.
pub fn make_response(ok: bool, msg: &String) -> (r: String)
    ensures
        r@ == (if ok {
            "O "@
        } else {
            "E "@
        }) + msg@,
{
    let mut r = if ok {
        "O ".to_owned()
    } else {
        "E ".to_owned()
    };
    r.append(msg.as_str());
    r
}

/// Prefix an error with what was being attempted: `description: error`.
pub fn make_error(error: &String, description: &str) -> (r: String)
    ensures
        r@ == description@ + ": "@ + error@,
{
    let mut r = description.to_owned();
    r.append(": ");
    r.append(error.as_str());
    proof {
        assert(r@ =~= description@ + ": "@ + error@);
    }
    r
}

/// Zero-pad a reply to the fixed frame size, truncating one that does
/// not fit.
pub fn raw(response: &str) -> (r: Vec<u8>)
    ensures
        r@.len() == BUFFER_SIZE,
        forall|k: int|
            0 <= k < BUFFER_SIZE && k < response.spec_bytes().len() ==> r@[k]
                == response.spec_bytes()[k],
        forall|k: int|
            response.spec_bytes().len() <= k < BUFFER_SIZE ==> r@[k] == 0,
{
    let mut bytes = response.as_bytes_vec();
    bytes.resize(BUFFER_SIZE, 0);
    bytes
}

} // verus!
