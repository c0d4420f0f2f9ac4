//! The textual command surface: the inbound commands, the backend's
//! responses, and the parser mapping one input line to a command.

use vstd::prelude::*;

use crate::text::spec_trim;
use crate::text::spec_starts_with;
use crate::text::spec_parse_usize;
use crate::text::str_chars;
use crate::text::chars_to_string;
use crate::text::trim_chars;
use crate::text::parse_usize;

verus! {

/// One inbound command.
pub enum Command {
    LoadDirectory(String),
    Del(usize),
    Move(String, String),
    Create(String, bool),
    Undo(usize),
    Commit,
    Display,
    Up,
    Down(usize),
    Status,
    Open(usize),
    GoTo(String),
    Find(String),
    Exit,
    Error(String),
    AISuggestion(String),
    AIConfirm,
    Help,
}

/// One outbound message.
pub enum BackendResponse {
    Response(String),
    AIResponse(String),
    Error(String),
}

/// The mathematical shape of a parsed command line.
pub enum CommandView {
    Del(usize),
    MoveCmd(Seq<char>, Seq<char>),
    Create(Seq<char>, bool),
    Undo(usize),
    Commit,
    Display,
    Up,
    Down(usize),
    Status,
    Open(usize),
    GoTo(Seq<char>),
    Find(Seq<char>),
    Help,
    Invalid,
}

/// The number of `>` characters in `s`.
pub open spec fn count_gt(s: Seq<char>) -> int
    decreases s.len(),
{
    if s.len() == 0 {
        0
    } else {
        (if s[0] == '>' {
            1int
        } else {
            0int
        }) + count_gt(s.skip(1))
    }
}

/// The position of the first `>` in `s`, or its length when there is none.
pub open spec fn first_gt(s: Seq<char>) -> int
    decreases s.len(),
{
    if s.len() == 0 {
        0
    } else if s[0] == '>' {
        0
    } else {
        1 + first_gt(s.skip(1))
    }
}

/// What one input line means, mirroring the command grammar: fixed words,
/// a bare index, and the prefixed forms with their arguments trimmed.
pub open spec fn spec_parse_command(raw: Seq<char>) -> CommandView {
    let s = spec_trim(raw);
    if s == ".."@ {
        CommandView::Up
    } else if s == "commit"@ {
        CommandView::Commit
    } else if spec_starts_with(s, "del "@) {
        match spec_parse_usize(spec_trim(s.skip(4))) {
            Some(i) => CommandView::Del(i),
            None => CommandView::Invalid,
        }
    } else if spec_starts_with(s, "undo "@) {
        match spec_parse_usize(spec_trim(s.skip(5))) {
            Some(i) => CommandView::Undo(i),
            None => CommandView::Invalid,
        }
    } else if s == "status"@ {
        CommandView::Status
    } else if s == "display"@ {
        CommandView::Display
    } else if spec_parse_usize(s) is Some {
        CommandView::Down(spec_parse_usize(s)->0)
    } else if spec_starts_with(s, "open "@) {
        match spec_parse_usize(spec_trim(s.skip(5))) {
            Some(i) => CommandView::Open(i),
            None => CommandView::Invalid,
        }
    } else if spec_starts_with(s, "go to "@) {
        CommandView::GoTo(spec_trim(s.skip(6)))
    } else if spec_starts_with(s, "find "@) {
        CommandView::Find(spec_trim(s.skip(5)))
    } else if spec_starts_with(s, "create "@) {
        let t = spec_trim(s.skip(7));
        if spec_starts_with(t, "file "@) {
            CommandView::Create(spec_trim(t.skip(5)), true)
        } else if spec_starts_with(t, "folder "@) {
            CommandView::Create(spec_trim(t.skip(7)), false)
        } else {
            CommandView::Invalid
        }
    } else if spec_starts_with(s, "move "@) {
        let p = spec_trim(s.skip(5));
        if count_gt(p) == 1 {
            CommandView::MoveCmd(
                spec_trim(p.take(first_gt(p))),
                spec_trim(p.skip(first_gt(p) + 1)),
            )
        } else {
            CommandView::Invalid
        }
    } else if s == "help"@ {
        CommandView::Help
    } else {
        CommandView::Invalid
    }
}

/// Whether the returned command carries exactly the parsed shape; a shape
/// of `Invalid` comes back as the invalid-command error.
pub open spec fn cmd_view_matches(c: Command, v: CommandView) -> bool {
    match v {
        CommandView::Del(i) => c matches Command::Del(j) && j == i,
        CommandView::MoveCmd(a, b) => c matches Command::Move(x, y) && x@ == a && y@ == b,
        CommandView::Create(p, f) => c matches Command::Create(x, g) && x@ == p && g == f,
        CommandView::Undo(i) => c matches Command::Undo(j) && j == i,
        CommandView::Commit => c is Commit,
        CommandView::Display => c is Display,
        CommandView::Up => c is Up,
        CommandView::Down(i) => c matches Command::Down(j) && j == i,
        CommandView::Status => c is Status,
        CommandView::Open(i) => c matches Command::Open(j) && j == i,
        CommandView::GoTo(p) => c matches Command::GoTo(x) && x@ == p,
        CommandView::Find(p) => c matches Command::Find(x) && x@ == p,
        CommandView::Help => c is Help,
        CommandView::Invalid => c matches Command::Error(m) && m@ == "Invalid command"@,
    }
}

/// Whether two character vectors hold the same text.
fn chars_eq(a: &Vec<char>, b: &Vec<char>) -> (r: bool)
    ensures
        r == (a@ == b@),
{
    if a.len() != b.len() {
        proof {
            assert(a@ != b@);
        }
        return false;
    }
    let mut i: usize = 0;
    while i < a.len()
        invariant
            a@.len() == b@.len(),
            i <= a@.len(),
            forall|k: int| 0 <= k < i ==> a@[k] == b@[k],
        decreases a.len() - i,
    {
        if a[i] != b[i] {
            return false;
        }
        i = i + 1;
    }
    proof {
        assert(a@ =~= b@);
    }
    true
}

/// Whether `v` starts with the prefix `p`.
fn chars_start_with(v: &Vec<char>, p: &Vec<char>) -> (r: bool)
    ensures
        r == spec_starts_with(v@, p@),
{
    if v.len() < p.len() {
        return false;
    }
    let mut i: usize = 0;
    while i < p.len()
        invariant
            p@.len() <= v@.len(),
            i <= p@.len(),
            forall|k: int| 0 <= k < i ==> v@[k] == p@[k],
        decreases p.len() - i,
    {
        if v[i] != p[i] {
            proof {
                assert(v@.take(p@.len() as int)[i as int] == v@[i as int]);
            }
            return false;
        }
        i = i + 1;
    }
    proof {
        assert(v@.take(p@.len() as int) =~= p@);
    }
    true
}

/// The characters of `v` from position `k` on.
fn vec_skip(v: &Vec<char>, k: usize) -> (r: Vec<char>)
    requires
        k <= v@.len(),
    ensures
        r@ == v@.skip(k as int),
{
    let mut out: Vec<char> = Vec::new();
    let mut i = k;
    while i < v.len()
        invariant
            k <= i <= v@.len(),
            out@ == v@.subrange(k as int, i as int),
        decreases v.len() - i,
    {
        proof {
            assert(v@.subrange(k as int, i + 1 as int) =~= v@.subrange(k as int, i as int).push(
                v@[i as int],
            ));
        }
        out.push(v[i]);
        i = i + 1;
    }
    proof {
        assert(out@ =~= v@.skip(k as int));
    }
    out
}

/// Parses one input line into a command, per `spec_parse_command`.
pub fn parse_command(input: &str) -> (r: Command)
    ensures
        cmd_view_matches(r, spec_parse_command(input@)),
{
    proof {
        reveal_strlit("..");
        reveal_strlit("commit");
        reveal_strlit("del ");
        reveal_strlit("undo ");
        reveal_strlit("status");
        reveal_strlit("display");
        reveal_strlit("open ");
        reveal_strlit("go to ");
        reveal_strlit("find ");
        reveal_strlit("create ");
        reveal_strlit("file ");
        reveal_strlit("folder ");
        reveal_strlit("move ");
        reveal_strlit("help");
        reveal_strlit("Invalid command");
    }
    let raw = str_chars(input);
    let s = trim_chars(&raw);
    let lit_up = str_chars("..");
    let lit_commit = str_chars("commit");
    let lit_del = str_chars("del ");
    let lit_undo = str_chars("undo ");
    let lit_status = str_chars("status");
    let lit_display = str_chars("display");
    let lit_open = str_chars("open ");
    let lit_goto = str_chars("go to ");
    let lit_find = str_chars("find ");
    let lit_create = str_chars("create ");
    let lit_file = str_chars("file ");
    let lit_folder = str_chars("folder ");
    let lit_move = str_chars("move ");
    let lit_help = str_chars("help");
    let invalid = String::from_str("Invalid command");
    if chars_eq(&s, &lit_up) {
        Command::Up
    } else if chars_eq(&s, &lit_commit) {
        Command::Commit
    } else if chars_start_with(&s, &lit_del) {
        let arg = trim_chars(&vec_skip(&s, 4));
        match parse_usize(&arg) {
            Some(i) => Command::Del(i),
            None => Command::Error(invalid),
        }
    } else if chars_start_with(&s, &lit_undo) {
        let arg = trim_chars(&vec_skip(&s, 5));
        match parse_usize(&arg) {
            Some(i) => Command::Undo(i),
            None => Command::Error(invalid),
        }
    } else if chars_eq(&s, &lit_status) {
        Command::Status
    } else if chars_eq(&s, &lit_display) {
        Command::Display
    } else if let Some(i) = parse_usize(&s) {
        Command::Down(i)
    } else if chars_start_with(&s, &lit_open) {
        let arg = trim_chars(&vec_skip(&s, 5));
        match parse_usize(&arg) {
            Some(i) => Command::Open(i),
            None => Command::Error(invalid),
        }
    } else if chars_start_with(&s, &lit_goto) {
        let arg = trim_chars(&vec_skip(&s, 6));
        Command::GoTo(chars_to_string(&arg))
    } else if chars_start_with(&s, &lit_find) {
        let arg = trim_chars(&vec_skip(&s, 5));
        Command::Find(chars_to_string(&arg))
    } else if chars_start_with(&s, &lit_create) {
        let t = trim_chars(&vec_skip(&s, 7));
        if chars_start_with(&t, &lit_file) {
            let arg = trim_chars(&vec_skip(&t, 5));
            Command::Create(chars_to_string(&arg), true)
        } else if chars_start_with(&t, &lit_folder) {
            let arg = trim_chars(&vec_skip(&t, 7));
            Command::Create(chars_to_string(&arg), false)
        } else {
            Command::Error(invalid)
        }
    } else if chars_start_with(&s, &lit_move) {
        let p = trim_chars(&vec_skip(&s, 5));
        let mut g: usize = 0;
        let mut cnt: usize = 0;
        let mut i: usize = 0;
        proof {
            assert(p@.skip(0) =~= p@);
        }
        while i < p.len()
            invariant
                i <= p@.len(),
                cnt <= i,
                count_gt(p@) == cnt + count_gt(p@.skip(i as int)),
                first_gt(p@) == (if cnt > 0 {
                    g as int
                } else {
                    i + first_gt(p@.skip(i as int))
                }),
                cnt > 0 ==> g < i && p@[g as int] == '>',
            decreases p.len() - i,
        {
            proof {
                assert(p@.skip(i as int)[0] == p@[i as int]);
                assert(p@.skip(i as int).skip(1) =~= p@.skip(i + 1));
            }
            if p[i] == '>' {
                if cnt == 0 {
                    g = i;
                }
                cnt = cnt + 1;
            }
            i = i + 1;
        }
        proof {
            assert(p@.skip(p@.len() as int) =~= Seq::<char>::empty());
        }
        if cnt == 1 {
            let mut before: Vec<char> = Vec::new();
            let mut k: usize = 0;
            while k < g
                invariant
                    k <= g <= p@.len(),
                    before@ == p@.subrange(0, k as int),
                decreases g - k,
            {
                proof {
                    assert(p@.subrange(0, k + 1 as int) =~= p@.subrange(0, k as int).push(
                        p@[k as int],
                    ));
                }
                before.push(p[k]);
                k = k + 1;
            }
            proof {
                assert(before@ =~= p@.take(first_gt(p@)));
            }
            let after = vec_skip(&p, g + 1);
            let a = trim_chars(&before);
            let b = trim_chars(&after);
            Command::Move(chars_to_string(&a), chars_to_string(&b))
        } else {
            Command::Error(invalid)
        }
    } else if chars_eq(&s, &lit_help) {
        Command::Help
    } else {
        Command::Error(invalid)
    }
}

} // verus!
