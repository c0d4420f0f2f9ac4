//! The AI suggestion payload: a JSON array of single-key objects naming a
//! delete, move, or directory creation. A hand-written recursive-descent
//! parser accepts exactly that shape; any malformed payload yields no
//! suggestions at all.

use vstd::prelude::*;

verus! {

pub struct DeleteFile {
    pub path: String,
}

pub struct MoveItem {
    pub original_location: String,
    pub new_location: String,
}

pub struct CreateDirectory {
    pub path: String,
}

/// One parsed suggestion.
pub enum AICommand {
    DeleteFile { delete_file: DeleteFile },
    MoveItem { move_item: MoveItem },
    CreateDirectory { create_directory: CreateDirectory },
}

/// The mathematical shape of one suggestion.
pub enum AiCmdView {
    Delete { path: Seq<char> },
    Move { original_location: Seq<char>, new_location: Seq<char> },
    CreateDir { path: Seq<char> },
}

/// Whether the parsed value carries exactly the fields of the view.
pub open spec fn cmd_matches(c: AICommand, v: AiCmdView) -> bool {
    match c {
        AICommand::DeleteFile { delete_file } => v matches AiCmdView::Delete { path } && path
            == delete_file.path@,
        AICommand::MoveItem { move_item } => v matches AiCmdView::Move {
            original_location,
            new_location,
        } && original_location == move_item.original_location@ && new_location
            == move_item.new_location@,
        AICommand::CreateDirectory { create_directory } => v matches AiCmdView::CreateDir {
            path,
        } && path == create_directory.path@,
    }
}

pub open spec fn is_ws(c: char) -> bool {
    c == ' ' || c == '\t' || c == '\n' || c == '\r'
}

/// The first position at or after `i` holding a non-whitespace character.
pub open spec fn spec_skip_ws(s: Seq<char>, i: int) -> int
    decreases s.len() - i,
{
    if 0 <= i < s.len() && is_ws(s[i]) {
        spec_skip_ws(s, i + 1)
    } else {
        i
    }
}

/// The translation of a short backslash escape; hex escapes are handled
/// by the string reader itself.
pub open spec fn spec_escape(c: char) -> Option<char> {
    if c == '"' {
        Some('"')
    } else if c == '\\' {
        Some('\\')
    } else if c == '/' {
        Some('/')
    } else if c == 'b' {
        Some('\x08')
    } else if c == 'f' {
        Some('\x0c')
    } else if c == 'n' {
        Some('\n')
    } else if c == 'r' {
        Some('\r')
    } else if c == 't' {
        Some('\t')
    } else {
        None
    }
}

pub open spec fn is_hex(c: char) -> bool {
    ('0' <= c && c <= '9') || ('a' <= c && c <= 'f') || ('A' <= c && c <= 'F')
}

pub open spec fn hex_val(c: char) -> int {
    if '0' <= c && c <= '9' {
        c as int - '0' as int
    } else if 'a' <= c && c <= 'f' {
        c as int - 'a' as int + 10
    } else {
        c as int - 'A' as int + 10
    }
}

/// The value of four hex digits at `i`.
pub open spec fn spec_hex4(s: Seq<char>, i: int) -> Option<int> {
    if 0 <= i && i + 4 <= s.len() && is_hex(s[i]) && is_hex(s[i + 1]) && is_hex(s[i + 2])
        && is_hex(s[i + 3]) {
        Some(4096 * hex_val(s[i]) + 256 * hex_val(s[i + 1]) + 16 * hex_val(s[i + 2]) + hex_val(
            s[i + 3],
        ))
    } else {
        None
    }
}

/// A character's scalar value.
pub open spec fn char_code(c: char) -> int {
    c as int
}

/// The character carrying scalar value `v`.
pub open spec fn char_of(v: int) -> char {
    choose|c: char| #[trigger] char_code(c) == v
}

/// The characters of a string body starting at `i` (just after the opening
/// quote), and the position just after the closing quote. A `\u` escape
/// names a code unit in hex; a high surrogate must be followed by a low
/// one, the pair naming one supplementary character, and a lone surrogate
/// spoils the string.
pub open spec fn spec_str_chars(s: Seq<char>, i: int, acc: Seq<char>) -> Option<(int, Seq<char>)>
    decreases s.len() - i,
{
    if i < 0 || i >= s.len() {
        None
    } else if s[i] == '"' {
        Some((i + 1, acc))
    } else if s[i] == '\\' {
        if i + 1 < s.len() {
            if s[i + 1] == 'u' {
                match spec_hex4(s, i + 2) {
                    None => None,
                    Some(v) => {
                        if 0xD800 <= v && v <= 0xDBFF {
                            if i + 12 <= s.len() && s[i + 6] == '\\' && s[i + 7] == 'u' {
                                match spec_hex4(s, i + 8) {
                                    None => None,
                                    Some(lo) => {
                                        if 0xDC00 <= lo && lo <= 0xDFFF {
                                            spec_str_chars(
                                                s,
                                                i + 12,
                                                acc.push(
                                                    char_of(
                                                        0x10000 + (v - 0xD800) * 0x400 + (lo
                                                            - 0xDC00),
                                                    ),
                                                ),
                                            )
                                        } else {
                                            None
                                        }
                                    },
                                }
                            } else {
                                None
                            }
                        } else if 0xDC00 <= v && v <= 0xDFFF {
                            None
                        } else {
                            spec_str_chars(s, i + 6, acc.push(char_of(v)))
                        }
                    },
                }
            } else {
                match spec_escape(s[i + 1]) {
                    Some(c) => spec_str_chars(s, i + 2, acc.push(c)),
                    None => None,
                }
            }
        } else {
            None
        }
    } else if (s[i] as u32) < 32 {
        None
    } else {
        spec_str_chars(s, i + 1, acc.push(s[i]))
    }
}

/// A quoted string at `i`.
pub open spec fn spec_string(s: Seq<char>, i: int) -> Option<(int, Seq<char>)> {
    if 0 <= i < s.len() && s[i] == '"' {
        spec_str_chars(s, i + 1, Seq::empty())
    } else {
        None
    }
}

/// A `"key": "value"` pair at `i`.
pub open spec fn spec_pair(s: Seq<char>, i: int) -> Option<(int, (Seq<char>, Seq<char>))> {
    match spec_string(s, i) {
        None => None,
        Some((j, k)) => {
            let j2 = spec_skip_ws(s, j);
            if 0 <= j2 < s.len() && s[j2] == ':' {
                let j3 = spec_skip_ws(s, j2 + 1);
                match spec_string(s, j3) {
                    None => None,
                    Some((j4, v)) => Some((j4, (k, v))),
                }
            } else {
                None
            }
        },
    }
}

/// The remaining pairs of an object body, after the first; `i` stands just
/// after a parsed pair.
pub open spec fn spec_pairs_rest(s: Seq<char>, i: int, acc: Seq<(Seq<char>, Seq<char>)>) -> Option<
    (int, Seq<(Seq<char>, Seq<char>)>),
>
    decreases s.len() - i,
{
    let j = spec_skip_ws(s, i);
    if 0 <= j < s.len() && s[j] == ',' {
        let j2 = spec_skip_ws(s, j + 1);
        match spec_pair(s, j2) {
            None => None,
            Some((j3, kv)) => if j3 > i && j3 <= s.len() {
                spec_pairs_rest(s, j3, acc.push(kv))
            } else {
                None
            },
        }
    } else if 0 <= j < s.len() && s[j] == '}' {
        Some((j + 1, acc))
    } else {
        None
    }
}

/// An object of string fields at `i`.
pub open spec fn spec_obj(s: Seq<char>, i: int) -> Option<(int, Seq<(Seq<char>, Seq<char>)>)> {
    if 0 <= i < s.len() && s[i] == '{' {
        let j = spec_skip_ws(s, i + 1);
        if 0 <= j < s.len() && s[j] == '}' {
            Some((j + 1, Seq::empty()))
        } else {
            match spec_pair(s, j) {
                None => None,
                Some((j2, kv)) => spec_pairs_rest(s, j2, Seq::empty().push(kv)),
            }
        }
    } else {
        None
    }
}

/// The suggestion named by a single-key element, when its key and fields
/// have exactly an accepted shape.
pub open spec fn spec_validate(key: Seq<char>, pairs: Seq<(Seq<char>, Seq<char>)>) -> Option<
    AiCmdView,
> {
    if key == "delete_file"@ {
        if pairs.len() == 1 && pairs[0].0 == "path"@ {
            Some(AiCmdView::Delete { path: pairs[0].1 })
        } else {
            None
        }
    } else if key == "move_item"@ {
        if pairs.len() == 2 && pairs[0].0 == "original_location"@ && pairs[1].0
            == "new_location"@ {
            Some(AiCmdView::Move { original_location: pairs[0].1, new_location: pairs[1].1 })
        } else if pairs.len() == 2 && pairs[0].0 == "new_location"@ && pairs[1].0
            == "original_location"@ {
            Some(AiCmdView::Move { original_location: pairs[1].1, new_location: pairs[0].1 })
        } else {
            None
        }
    } else if key == "create_directory"@ {
        if pairs.len() == 1 && pairs[0].0 == "path"@ {
            Some(AiCmdView::CreateDir { path: pairs[0].1 })
        } else {
            None
        }
    } else {
        None
    }
}

/// One `{ "kind": { ... } }` element at `i`.
pub open spec fn spec_elem(s: Seq<char>, i: int) -> Option<(int, AiCmdView)> {
    if 0 <= i < s.len() && s[i] == '{' {
        let j = spec_skip_ws(s, i + 1);
        match spec_string(s, j) {
            None => None,
            Some((j2, key)) => {
                let j3 = spec_skip_ws(s, j2);
                if 0 <= j3 < s.len() && s[j3] == ':' {
                    let j4 = spec_skip_ws(s, j3 + 1);
                    match spec_obj(s, j4) {
                        None => None,
                        Some((j5, pairs)) => {
                            let j6 = spec_skip_ws(s, j5);
                            if 0 <= j6 < s.len() && s[j6] == '}' {
                                match spec_validate(key, pairs) {
                                    None => None,
                                    Some(v) => Some((j6 + 1, v)),
                                }
                            } else {
                                None
                            }
                        },
                    }
                } else {
                    None
                }
            },
        }
    } else {
        None
    }
}

/// The remaining elements of the array, after the first; `i` stands just
/// after a parsed element.
pub open spec fn spec_elems_rest(s: Seq<char>, i: int, acc: Seq<AiCmdView>) -> Option<(
    int,
    Seq<AiCmdView>,
)>
    decreases s.len() - i,
{
    let j = spec_skip_ws(s, i);
    if 0 <= j < s.len() && s[j] == ',' {
        let j2 = spec_skip_ws(s, j + 1);
        match spec_elem(s, j2) {
            None => None,
            Some((j3, v)) => if j3 > i && j3 <= s.len() {
                spec_elems_rest(s, j3, acc.push(v))
            } else {
                None
            },
        }
    } else if 0 <= j < s.len() && s[j] == ']' {
        Some((j + 1, acc))
    } else {
        None
    }
}

/// The whole payload: a JSON array of suggestion elements, and nothing
/// after it.
pub open spec fn spec_parse_ai(s: Seq<char>) -> Option<Seq<AiCmdView>> {
    let i = spec_skip_ws(s, 0);
    if 0 <= i < s.len() && s[i] == '[' {
        let j = spec_skip_ws(s, i + 1);
        let parsed = if 0 <= j < s.len() && s[j] == ']' {
            Some((j + 1, Seq::<AiCmdView>::empty()))
        } else {
            match spec_elem(s, j) {
                None => None,
                Some((j2, v)) => spec_elems_rest(s, j2, Seq::empty().push(v)),
            }
        };
        match parsed {
            None => None,
            Some((e, vs)) => if spec_skip_ws(s, e) == s.len() {
                Some(vs)
            } else {
                None
            },
        }
    } else {
        None
    }
}

} // verus!

verus! {

use crate::text::str_chars;
use crate::text::push_char;

proof fn lemma_skip_ws_bounds(s: Seq<char>, i: int)
    requires
        0 <= i <= s.len(),
    ensures
        i <= spec_skip_ws(s, i) <= s.len(),
    decreases s.len() - i,
{
    if i < s.len() && is_ws(s[i]) {
        lemma_skip_ws_bounds(s, i + 1);
    }
}

proof fn lemma_str_chars_bounds(s: Seq<char>, i: int, acc: Seq<char>)
    requires
        spec_str_chars(s, i, acc) is Some,
    ensures
        i < (spec_str_chars(s, i, acc)->0).0 <= s.len(),
    decreases s.len() - i,
{
    if 0 <= i < s.len() {
        if s[i] == '"' {
        } else if s[i] == '\\' {
            if s[i + 1] == 'u' {
                let v = spec_hex4(s, i + 2)->0;
                if 0xD800 <= v && v <= 0xDBFF {
                    let lo = spec_hex4(s, i + 8)->0;
                    lemma_str_chars_bounds(
                        s,
                        i + 12,
                        acc.push(char_of(0x10000 + (v - 0xD800) * 0x400 + (lo - 0xDC00))),
                    );
                } else {
                    lemma_str_chars_bounds(s, i + 6, acc.push(char_of(v)));
                }
            } else {
                lemma_str_chars_bounds(s, i + 2, acc.push(spec_escape(s[i + 1])->0));
            }
        } else if (s[i] as u32) < 32 {
        } else {
            lemma_str_chars_bounds(s, i + 1, acc.push(s[i]));
        }
    }
}

proof fn lemma_pair_bounds(s: Seq<char>, i: int)
    requires
        0 <= i <= s.len(),
        spec_pair(s, i) is Some,
    ensures
        i < (spec_pair(s, i)->0).0 <= s.len(),
{
    let (j, k) = spec_string(s, i)->0;
    lemma_str_chars_bounds(s, i + 1, Seq::empty());
    lemma_skip_ws_bounds(s, j);
    let j2 = spec_skip_ws(s, j);
    let j3 = spec_skip_ws(s, j2 + 1);
    lemma_skip_ws_bounds(s, j2 + 1);
    lemma_str_chars_bounds(s, j3 + 1, Seq::empty());
}

/// Skips whitespace, per `spec_skip_ws`.
fn skip_ws(v: &Vec<char>, i: usize) -> (r: usize)
    requires
        i <= v@.len(),
    ensures
        r as int == spec_skip_ws(v@, i as int),
        i <= r <= v@.len(),
{
    let mut j = i;
    while j < v.len() && (v[j] == ' ' || v[j] == '\t' || v[j] == '\n' || v[j] == '\r')
        invariant
            i <= j <= v@.len(),
            spec_skip_ws(v@, i as int) == spec_skip_ws(v@, j as int),
        decreases v@.len() - j,
    {
        j = j + 1;
    }
    j
}

/// The value of one hex digit.
fn char_hex(c: char) -> (r: Option<u32>)
    ensures
        r is Some <==> is_hex(c),
        r matches Some(h) ==> h as int == hex_val(c) && h < 16,
{
    if '0' <= c && c <= '9' {
        Some((c as u32) - ('0' as u32))
    } else if 'a' <= c && c <= 'f' {
        Some((c as u32) - ('a' as u32) + 10)
    } else if 'A' <= c && c <= 'F' {
        Some((c as u32) - ('A' as u32) + 10)
    } else {
        None
    }
}

/// Reads four hex digits, per `spec_hex4`.
fn read_hex4(v: &Vec<char>, i: usize) -> (r: Option<u32>)
    ensures
        match r {
            Some(x) => spec_hex4(v@, i as int) == Some(x as int) && x < 0x10000,
            None => spec_hex4(v@, i as int) is None,
        },
{
    proof {
        assert(v.len() == v@.len());
    }
    if i >= v.len() || v.len() - i < 4 {
        return None;
    }
    let h0 = char_hex(v[i]);
    let h1 = char_hex(v[i + 1]);
    let h2 = char_hex(v[i + 2]);
    let h3 = char_hex(v[i + 3]);
    match (h0, h1, h2, h3) {
        (Some(a), Some(b), Some(c), Some(d)) => Some(4096 * a + 256 * b + 16 * c + d),
        _ => None,
    }
}

/// Relies on `char::from_u32`: a character for every valid scalar value —
/// below the surrogate range, or between it and the Unicode maximum — and
/// nothing otherwise.
#[verifier::external_body]
fn char_from_u32(x: u32) -> (r: Option<char>)
    ensures
        (r is Some) == (x < 0xD800 || (0xE000 <= x && x <= 0x10FFFF)),
        r matches Some(c) ==> char_code(c) == x as int,
{
    char::from_u32(x)
}

/// Parses a quoted string, per `spec_string`.
fn parse_string_at(v: &Vec<char>, i: usize) -> (r: Option<(usize, String)>)
    requires
        i <= v@.len(),
    ensures
        match r {
            Some((j, out)) => spec_string(v@, i as int) == Some((j as int, out@)) && i < j
                <= v@.len(),
            None => spec_string(v@, i as int) is None,
        },
{
    if i >= v.len() || v[i] != '"' {
        return None;
    }
    let mut j = i + 1;
    let mut out = String::new();
    while j < v.len()
        invariant
            i + 1 <= j <= v@.len(),
            spec_string(v@, i as int) == spec_str_chars(v@, j as int, out@),
        decreases v@.len() - j,
    {
        let c = v[j];
        if c == '"' {
            proof {
                lemma_str_chars_bounds(v@, i + 1 as int, Seq::empty());
            }
            return Some(((j + 1), out));
        } else if c == '\\' {
            if j + 1 < v.len() {
                let e = v[j + 1];
                if e == 'u' {
                    let hv = match read_hex4(v, j + 2) {
                        None => {
                            return None;
                        },
                        Some(x) => x,
                    };
                    if 0xD800 <= hv && hv <= 0xDBFF {
                        proof {
                            assert(v.len() == v@.len());
                        }
                        if !(v.len() - j >= 12 && v[j + 6] == '\\' && v[j + 7] == 'u') {
                            return None;
                        }
                        let lo = match read_hex4(v, j + 8) {
                            None => {
                                return None;
                            },
                            Some(x) => x,
                        };
                        if !(0xDC00 <= lo && lo <= 0xDFFF) {
                            return None;
                        }
                        let code = 0x10000 + (hv - 0xD800) * 0x400 + (lo - 0xDC00);
                        let mc = char_from_u32(code).unwrap();
                        proof {
                            assert(char_code(mc) == code as int);
                            assert(mc == char_of(code as int));
                        }
                        push_char(&mut out, mc);
                        j = j + 12;
                    } else if 0xDC00 <= hv && hv <= 0xDFFF {
                        return None;
                    } else {
                        let mc = char_from_u32(hv).unwrap();
                        proof {
                            assert(char_code(mc) == hv as int);
                            assert(mc == char_of(hv as int));
                        }
                        push_char(&mut out, mc);
                        j = j + 6;
                    }
                } else {
                    let m: Option<char> = if e == '"' {
                        Some('"')
                    } else if e == '\\' {
                        Some('\\')
                    } else if e == '/' {
                        Some('/')
                    } else if e == 'b' {
                        Some('\x08')
                    } else if e == 'f' {
                        Some('\x0c')
                    } else if e == 'n' {
                        Some('\n')
                    } else if e == 'r' {
                        Some('\r')
                    } else if e == 't' {
                        Some('\t')
                    } else {
                        None
                    };
                    proof {
                        assert(m == spec_escape(v@[j + 1]));
                    }
                    match m {
                        Some(mc) => {
                            push_char(&mut out, mc);
                            j = j + 2;
                        },
                        None => {
                            return None;
                        },
                    }
                }
            } else {
                return None;
            }
        } else if (c as u32) < 32 {
            return None;
        } else {
            push_char(&mut out, c);
            j = j + 1;
        }
    }
    None
}

/// Parses one `"key": "value"` pair, per `spec_pair`.
fn parse_pair_at(v: &Vec<char>, i: usize) -> (r: Option<(usize, (String, String))>)
    requires
        i <= v@.len(),
    ensures
        match r {
            Some((j, kv)) => spec_pair(v@, i as int) == Some((j as int, (kv.0@, kv.1@))) && i < j
                <= v@.len(),
            None => spec_pair(v@, i as int) is None,
        },
{
    match parse_string_at(v, i) {
        None => None,
        Some((j, k)) => {
            let j2 = skip_ws(v, j);
            if j2 < v.len() && v[j2] == ':' {
                let j3 = skip_ws(v, j2 + 1);
                match parse_string_at(v, j3) {
                    None => None,
                    Some((j4, val)) => Some((j4, (k, val))),
                }
            } else {
                None
            }
        },
    }
}

/// Parses an object of string fields, per `spec_obj`.
fn parse_obj_at(v: &Vec<char>, i: usize) -> (r: Option<(usize, Vec<(String, String)>)>)
    requires
        i <= v@.len(),
    ensures
        match r {
            Some((j, ps)) => {
                &&& spec_obj(v@, i as int) matches Some((sj, sps))
                &&& sj == j as int
                &&& i < j <= v@.len()
                &&& sps.len() == ps@.len()
                &&& forall|x: int|
                    0 <= x < ps@.len() ==> (spec_obj(v@, i as int)->0).1[x] == ((
                    #[trigger] ps@[x]).0@, ps@[x].1@)
            },
            None => spec_obj(v@, i as int) is None,
        },
{
    if i >= v.len() || v[i] != '{' {
        return None;
    }
    let j = skip_ws(v, i + 1);
    if j < v.len() && v[j] == '}' {
        proof {
            assert(spec_obj(v@, i as int) == Some((j + 1 as int, Seq::<(Seq<char>, Seq<char>)>::empty())));
        }
        return Some(((j + 1), Vec::new()));
    }
    let first = match parse_pair_at(v, j) {
        None => {
            return None;
        },
        Some(x) => x,
    };
    let mut pos = first.0;
    let mut ps: Vec<(String, String)> = Vec::new();
    ps.push(first.1);
    let ghost accv = Seq::<(Seq<char>, Seq<char>)>::empty().push(
        (first.1.0@, first.1.1@),
    );
    proof {
        assert(accv.len() == ps@.len());
        assert(forall|x: int| 0 <= x < ps@.len() ==> accv[x] == ((#[trigger] ps@[x]).0@, ps@[x].1@));
    }
    loop
        invariant
            pos <= v@.len(),
            accv.len() == ps@.len(),
            forall|x: int| 0 <= x < ps@.len() ==> accv[x] == ((#[trigger] ps@[x]).0@, ps@[x].1@),
            spec_obj(v@, i as int) == spec_pairs_rest(v@, pos as int, accv),
            i < pos,
        decreases v@.len() - pos,
    {
        let j = skip_ws(v, pos);
        if j < v.len() && v[j] == ',' {
            let j2 = skip_ws(v, j + 1);
            match parse_pair_at(v, j2) {
                None => {
                    return None;
                },
                Some((j3, kv)) => {
                    proof {
                        assert(j3 > pos && j3 <= v@.len());
                    }
                    let ghost accv2 = accv.push((kv.0@, kv.1@));
                    ps.push(kv);
                    proof {
                        accv = accv2;
                    }
                    pos = j3;
                },
            }
        } else if j < v.len() && v[j] == '}' {
            proof {
                assert(spec_pairs_rest(v@, pos as int, accv) == Some((j + 1 as int, accv)));
            }
            return Some(((j + 1), ps));
        } else {
            return None;
        }
    }
}

} // verus!

verus! {


/// Builds the suggestion for a single-key element, per `spec_validate`.
fn validate_cmd(key: String, mut pairs: Vec<(String, String)>) -> (r: Option<AICommand>)
    ensures
        ({
            let pv = Seq::new(pairs@.len(), |x: int| (pairs@[x].0@, pairs@[x].1@));
            match spec_validate(key@, pv) {
                Some(v) => r is Some && cmd_matches(r->0, v),
                None => r is None,
            }
        }),
{
    proof {
        reveal_strlit("delete_file");
        reveal_strlit("move_item");
        reveal_strlit("create_directory");
        reveal_strlit("path");
        reveal_strlit("original_location");
        reveal_strlit("new_location");
    }
    let ghost pv = Seq::new(pairs@.len(), |x: int| (pairs@[x].0@, pairs@[x].1@));
    let kw_delete = String::from_str("delete_file");
    let kw_move = String::from_str("move_item");
    let kw_create = String::from_str("create_directory");
    let kw_path = String::from_str("path");
    let kw_orig = String::from_str("original_location");
    let kw_new = String::from_str("new_location");
    if crate::system::path_eq(&key, &kw_delete) {
        if pairs.len() == 1 {
            let (k0, v0) = pairs.pop().unwrap();
            proof {
                assert(pv[0] == (k0@, v0@));
            }
            if crate::system::path_eq(&k0, &kw_path) {
                return Some(
                    AICommand::DeleteFile { delete_file: DeleteFile { path: v0 } },
                );
            }
        }
        None
    } else if crate::system::path_eq(&key, &kw_move) {
        if pairs.len() == 2 {
            let (k1, v1) = pairs.pop().unwrap();
            let (k0, v0) = pairs.pop().unwrap();
            proof {
                assert(pv[0] == (k0@, v0@));
                assert(pv[1] == (k1@, v1@));
            }
            if crate::system::path_eq(&k0, &kw_orig) && crate::system::path_eq(&k1, &kw_new) {
                return Some(
                    AICommand::MoveItem {
                        move_item: MoveItem { original_location: v0, new_location: v1 },
                    },
                );
            }
            if crate::system::path_eq(&k0, &kw_new) && crate::system::path_eq(&k1, &kw_orig) {
                return Some(
                    AICommand::MoveItem {
                        move_item: MoveItem { original_location: v1, new_location: v0 },
                    },
                );
            }
        }
        None
    } else if crate::system::path_eq(&key, &kw_create) {
        if pairs.len() == 1 {
            let (k0, v0) = pairs.pop().unwrap();
            proof {
                assert(pv[0] == (k0@, v0@));
            }
            if crate::system::path_eq(&k0, &kw_path) {
                return Some(
                    AICommand::CreateDirectory { create_directory: CreateDirectory { path: v0 } },
                );
            }
        }
        None
    } else {
        None
    }
}

/// Parses one suggestion element, per `spec_elem`.
fn parse_elem_at(v: &Vec<char>, i: usize) -> (r: Option<(usize, AICommand)>)
    requires
        i <= v@.len(),
    ensures
        match r {
            Some((j, cmd)) => {
                &&& spec_elem(v@, i as int) matches Some((sj, sv))
                &&& sj == j as int
                &&& i < j <= v@.len()
                &&& cmd_matches(cmd, (spec_elem(v@, i as int)->0).1)
            },
            None => spec_elem(v@, i as int) is None,
        },
{
    if i >= v.len() || v[i] != '{' {
        return None;
    }
    let j = skip_ws(v, i + 1);
    let (j2, key) = match parse_string_at(v, j) {
        None => {
            return None;
        },
        Some(x) => x,
    };
    let j3 = skip_ws(v, j2);
    if !(j3 < v.len() && v[j3] == ':') {
        return None;
    }
    let j4 = skip_ws(v, j3 + 1);
    let (j5, pairs) = match parse_obj_at(v, j4) {
        None => {
            return None;
        },
        Some(x) => x,
    };
    let j6 = skip_ws(v, j5);
    if !(j6 < v.len() && v[j6] == '}') {
        return None;
    }
    let ghost spairs = (spec_obj(v@, j4 as int)->0).1;
    proof {
        assert(spairs =~= Seq::new(pairs@.len(), |x: int| (pairs@[x].0@, pairs@[x].1@)));
    }
    match validate_cmd(key, pairs) {
        None => None,
        Some(cmd) => Some(((j6 + 1), cmd)),
    }
}

/// Parses the whole suggestion payload. A payload that is not exactly a
/// JSON array of well-shaped suggestion elements yields no suggestions.
pub fn parse_ai(json_input: &str) -> (r: Vec<AICommand>)
    ensures
        match spec_parse_ai(json_input@) {
            Some(vs) => r@.len() == vs.len() && forall|j: int|
                0 <= j < vs.len() ==> cmd_matches(#[trigger] r@[j], vs[j]),
            None => r@.len() == 0,
        },
{
    let v = str_chars(json_input);
    let i = skip_ws(&v, 0);
    if !(i < v.len() && v[i] == '[') {
        return Vec::new();
    }
    let j = skip_ws(&v, i + 1);
    let mut out: Vec<AICommand> = Vec::new();
    let ghost accv = Seq::<AiCmdView>::empty();
    if j < v.len() && v[j] == ']' {
        let e = skip_ws(&v, j + 1);
        if e == v.len() {
            proof {
                assert(spec_parse_ai(json_input@) == Some(accv));
            }
            return out;
        } else {
            proof {
                assert(spec_parse_ai(json_input@) is None);
            }
            return Vec::new();
        }
    }
    match parse_elem_at(&v, j) {
        None => {
            proof {
                assert(spec_parse_ai(json_input@) is None);
            }
            Vec::new()
        },
        Some((j2, cmd)) => {
            out.push(cmd);
            proof {
                accv = accv.push((spec_elem(v@, j as int)->0).1);
            }
            let mut pos: usize = j2;
            let ghost whole = spec_parse_ai(json_input@);
            proof {
                assert(whole == (match spec_elems_rest(v@, pos as int, accv) {
                    None => None::<Seq<AiCmdView>>,
                    Some((e, vs)) => if spec_skip_ws(v@, e) == v@.len() {
                        Some(vs)
                    } else {
                        None
                    },
                }));
            }
            loop
                invariant
                    pos <= v@.len(),
                    out@.len() == accv.len(),
                    forall|x: int|
                        0 <= x < accv.len() ==> cmd_matches(#[trigger] out@[x], accv[x]),
                    whole == spec_parse_ai(json_input@),
                    whole == (match spec_elems_rest(v@, pos as int, accv) {
                        None => None::<Seq<AiCmdView>>,
                        Some((e, vs)) => if spec_skip_ws(v@, e) == v@.len() {
                            Some(vs)
                        } else {
                            None
                        },
                    }),
                    v@ == json_input@,
                decreases v@.len() - pos,
            {
                let jj = skip_ws(&v, pos);
                if jj < v.len() && v[jj] == ',' {
                    let jj2 = skip_ws(&v, jj + 1);
                    match parse_elem_at(&v, jj2) {
                        None => {
                            proof {
                                assert(spec_elems_rest(v@, pos as int, accv) is None);
                            }
                            return Vec::new();
                        },
                        Some((jj3, cmd2)) => {
                            proof {
                                assert(jj3 > pos && jj3 <= v@.len());
                                assert(spec_elems_rest(v@, pos as int, accv)
                                    == spec_elems_rest(
                                    v@,
                                    jj3 as int,
                                    accv.push((spec_elem(v@, jj2 as int)->0).1),
                                ));
                            }
                            out.push(cmd2);
                            proof {
                                accv = accv.push((spec_elem(v@, jj2 as int)->0).1);
                            }
                            pos = jj3;
                        },
                    }
                } else if jj < v.len() && v[jj] == ']' {
                    proof {
                        assert(spec_elems_rest(v@, pos as int, accv) == Some((
                            jj + 1 as int,
                            accv,
                        )));
                    }
                    let e = skip_ws(&v, jj + 1);
                    if e == v.len() {
                        proof {
                            assert(whole == Some(accv));
                        }
                        return out;
                    } else {
                        proof {
                            assert(whole is None);
                        }
                        return Vec::new();
                    }
                } else {
                    proof {
                        assert(spec_elems_rest(v@, pos as int, accv) is None);
                    }
                    return Vec::new();
                }
            }
        },
    }
}

} // verus!
