//! Rendering the engine's findings for people: the difference listing
//! and the notification text, built character by character.

use vstd::prelude::*;
use vstd::string::StrSliceExecFns;
use vstd::string::StringExecFns;
use crate::state::Difference;

verus! {

/// The decimal digit for a value below ten.
pub open spec fn digit(d: nat) -> char {
    if d == 0 {
        '0'
    } else if d == 1 {
        '1'
    } else if d == 2 {
        '2'
    } else if d == 3 {
        '3'
    } else if d == 4 {
        '4'
    } else if d == 5 {
        '5'
    } else if d == 6 {
        '6'
    } else if d == 7 {
        '7'
    } else if d == 8 {
        '8'
    } else {
        '9'
    }
}

/// The decimal rendering of `n`, most significant digit first.
pub open spec fn dec_str(n: nat) -> Seq<char>
    decreases n,
{
    if n < 10 {
        seq![digit(n)]
    } else {
        dec_str(n / 10).push(digit(n % 10))
    }
}

/// One digit as text.
fn digit_str(d: u64) -> (r: &'static str)
    requires
        d < 10,
    ensures
        r@ == seq![digit(d as nat)],
{
    proof {
        reveal_strlit("0");
        reveal_strlit("1");
        reveal_strlit("2");
        reveal_strlit("3");
        reveal_strlit("4");
        reveal_strlit("5");
        reveal_strlit("6");
        reveal_strlit("7");
        reveal_strlit("8");
        reveal_strlit("9");
        assert("0"@ =~= seq!['0']);
        assert("1"@ =~= seq!['1']);
        assert("2"@ =~= seq!['2']);
        assert("3"@ =~= seq!['3']);
        assert("4"@ =~= seq!['4']);
        assert("5"@ =~= seq!['5']);
        assert("6"@ =~= seq!['6']);
        assert("7"@ =~= seq!['7']);
        assert("8"@ =~= seq!['8']);
        assert("9"@ =~= seq!['9']);
    }
    if d == 0 {
        "0"
    } else if d == 1 {
        "1"
    } else if d == 2 {
        "2"
    } else if d == 3 {
        "3"
    } else if d == 4 {
        "4"
    } else if d == 5 {
        "5"
    } else if d == 6 {
        "6"
    } else if d == 7 {
        "7"
    } else if d == 8 {
        "8"
    } else {
        "9"
    }
}

/// Render `n` in decimal.
pub fn u64_to_string(n: u64) -> (r: String)
    ensures
        r@ == dec_str(n as nat),
    decreases n,
{
    if n < 10 {
        digit_str(n).to_owned()
    } else {
        let mut s = u64_to_string(n / 10);
        s.append(digit_str(n % 10));
        proof {
            assert(s@ =~= dec_str((n / 10) as nat).push(digit((n % 10) as nat)));
        }
        s
    }
}

/// One line of the difference listing.
pub open spec fn diff_line(d: Difference) -> Seq<char> {
    "["@ + d.kind@ + "] "@ + d.path@
}

/// The whole difference listing, one line per entry, joined by
/// newlines.
pub open spec fn diffs_text(s: Seq<Difference>) -> Seq<char>
    decreases s.len(),
{
    if s.len() == 0 {
        Seq::empty()
    } else if s.len() == 1 {
        diff_line(s[0])
    } else {
        diffs_text(s.drop_last()) + "\n"@ + diff_line(s.last())
    }
}

/// Render the difference list: `[Kind] path`, one entry per line.
pub fn differences_to_string(differences: &Vec<Difference>) -> (r: String)
    ensures
        r@ == diffs_text(differences@),
{
    let mut out = String::new();
    let n: usize = differences.len();
    let mut i: usize = 0;
    while i < n
        invariant
            0 <= i <= n,
            n == differences@.len(),
            out@ == diffs_text(differences@.take(i as int)),
        decreases n - i,
    {
        if i > 0 {
            out.append("\n");
        }
        out.append("[");
        out.append(differences[i].kind.as_str());
        out.append("] ");
        out.append(differences[i].path.as_str());
        proof {
            assert(differences@.take(i + 1).drop_last() =~= differences@.take(i as int));
            assert(differences@.take(i + 1).last() == differences@[i as int]);
            if i == 0 {
                assert(out@ =~= diffs_text(differences@.take(1)));
            } else {
                assert(out@ =~= diffs_text(differences@.take(i + 1)));
            }
        }
        i += 1;
    }
    proof {
        assert(differences@.take(n as int) =~= differences@);
    }
    out
}

/// The notification text: how many files changed and, when any are
/// waiting, how many files are suggested.
pub open spec fn notification_text(changed: nat, suggested: nat) -> Seq<char> {
    let head = "You have "@ + dec_str(changed) + " changed files."@;
    if suggested > 0 {
        head + "\nAnd "@ + dec_str(suggested) + " suggested files."@
    } else {
        head
    }
}

/// Render the notification body for a pass that found changes.
pub fn notification_body(changed: u64, suggested: u64) -> (r: String)
    ensures
        r@ == notification_text(changed as nat, suggested as nat),
{
    let mut out = "You have ".to_owned();
    let c = u64_to_string(changed);
    out.append(c.as_str());
    out.append(" changed files.");
    if suggested > 0 {
        out.append("\nAnd ");
        let s = u64_to_string(suggested);
        out.append(s.as_str());
        out.append(" suggested files.");
    }
    proof {
        assert(out@ =~= notification_text(changed as nat, suggested as nat));
    }
    out
}

/// A suggested file as shown to the user: its path below home, or the
/// whole path where it is not below home.
pub open spec fn shown_name(f: String, home: Seq<char>) -> Seq<char> {
    if crate::paths::under(f@, home) {
        crate::paths::rel_of(f@, home)
    } else {
        f@
    }
}

/// The suggested files, one shown name per line.
pub open spec fn suggested_text(l: Seq<String>, home: Seq<char>) -> Seq<char>
    decreases l.len(),
{
    if l.len() == 0 {
        Seq::empty()
    } else if l.len() == 1 {
        shown_name(l[0], home)
    } else {
        suggested_text(l.drop_last(), home) + "\n"@ + shown_name(l.last(), home)
    }
}

/// The `status` reply: the changed files, the suggested files, or the
/// all-quiet line when there is neither.
pub open spec fn status_text(
    diffs: Seq<Difference>,
    suggested: Seq<String>,
    home: Seq<char>,
) -> Seq<char> {
    if diffs.len() == 0 && suggested.len() == 0 {
        "Everything is up to date and no suggestions"@
    } else {
        (if diffs.len() > 0 {
            "Changed Files\n"@ + diffs_text(diffs) + (if suggested.len() > 0 {
                "\n\n"@
            } else {
                Seq::empty()
            })
        } else {
            Seq::empty()
        }) + (if suggested.len() > 0 {
            "Suggested Files\n"@ + suggested_text(suggested, home)
        } else {
            Seq::empty()
        })
    }
}

/// Render the `status` reply.
pub fn status_message(
    diffs: &Vec<Difference>,
    suggested: &Vec<String>,
    home: &String,
) -> (r: String)
    ensures
        r@ == status_text(diffs@, suggested@, home@),
{
    if diffs.len() == 0 && suggested.len() == 0 {
        return "Everything is up to date and no suggestions".to_owned();
    }
    let mut out = String::new();
    if diffs.len() > 0 {
        out.append("Changed Files\n");
        let listing = differences_to_string(diffs);
        out.append(listing.as_str());
        if suggested.len() > 0 {
            out.append("\n\n");
        }
    }
    if suggested.len() > 0 {
        out.append("Suggested Files\n");
        let n: usize = suggested.len();
        let mut i: usize = 0;
        let ghost head = out@;
        while i < n
            invariant
                0 <= i <= n,
                n == suggested@.len(),
                out@ == head + suggested_text(suggested@.take(i as int), home@),
            decreases n - i,
        {
            if i > 0 {
                out.append("\n");
            }
            if crate::paths::is_under(&suggested[i], home) {
                let rel = crate::paths::rel_part(&suggested[i], home);
                out.append(rel.as_str());
            } else {
                out.append(suggested[i].as_str());
            }
            proof {
                assert(suggested@.take(i + 1).drop_last() =~= suggested@.take(i as int));
                assert(suggested@.take(i + 1).last() == suggested@[i as int]);
                if i == 0 {
                    assert(out@ =~= head + suggested_text(suggested@.take(1), home@));
                } else {
                    assert(out@ =~= head + suggested_text(suggested@.take(i + 1), home@));
                }
            }
            i += 1;
        }
        proof {
            assert(suggested@.take(n as int) =~= suggested@);
        }
    }
    proof {
        assert(out@ =~= status_text(diffs@, suggested@, home@));
    }
    out
}

/// Whether a completed pass should notify the user: the difference
/// count grew against the prior pass, or suggestions are waiting.
pub fn should_notify(old_changed: usize, new_changed: usize, suggested: usize) -> (b: bool)
    ensures
        b == (new_changed > old_changed || suggested > 0),
{
    new_changed > old_changed || suggested > 0
}

} // verus!
