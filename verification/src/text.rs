//! Character-level text helpers: decimal rendering and parsing, and the
//! conversions between `String` and `Vec<char>` that the rest of the crate
//! builds its string handling on.

use vstd::prelude::*;

verus! {

/// The characters of a string slice, in order, drained from its character
/// iterator.
pub fn str_chars(s: &str) -> (r: Vec<char>)
    ensures
        r@ == s@,
{
    broadcast use vstd::string::next_postcondition;

    let mut it = s.chars();
    proof {
        vstd::string::axiom_spec_iter(s);
        assert(Seq::<char>::empty() + s@ =~= s@);
    }
    let mut out: Vec<char> = Vec::new();
    loop
        invariant
            vstd::std_specs::iter::IteratorSpec::obeys_prophetic_iter_laws(&it),
            vstd::std_specs::iter::IteratorSpec::decrease(&it) is Some,
            out@ + vstd::std_specs::iter::IteratorSpec::remaining(&it) == s@,
        decreases vstd::std_specs::iter::IteratorSpec::decrease(&it)->0,
    {
        let ghost prev = it;
        let ghost outpre = out@;
        match it.next() {
            Some(c) => {
                out.push(c);
                proof {
                    let rem = vstd::std_specs::iter::IteratorSpec::remaining(&prev);
                    assert(out@ =~= outpre.push(rem[0]));
                    assert(outpre.push(rem[0]) + rem.drop_first() =~= outpre + rem);
                }
            },
            None => {
                proof {
                    assert(out@ + Seq::<char>::empty() =~= out@);
                }
                return out;
            },
        }
    }
}

/// Relies on `String::push`: appends one character at the end.
#[verifier::external_body]
pub fn push_char(s: &mut String, c: char)
    ensures
        final(s)@ == old(s)@.push(c),
{
    s.push(c);
}

pub fn chars_to_string(v: &Vec<char>) -> (r: String)
    ensures
        r@ == v@,
{
    let mut r = String::new();
    let mut i: usize = 0;
    while i < v.len()
        invariant
            i <= v.len(),
            r@ == v@.take(i as int),
        decreases v.len() - i,
    {
        push_char(&mut r, v[i]);
        proof {
            assert(v@.take(i + 1 as int) =~= v@.take(i as int).push(v@[i as int]));
        }
        i = i + 1;
    }
    proof {
        assert(v@.take(v@.len() as int) =~= v@);
    }
    r
}

pub open spec fn digit_char(d: nat) -> char {
    if d == 0 {
        '0'
    } else if d == 1 {
        '1'
    } else if d == 2 {
        '2'
    } else if d == 3 {
        '3'
    } else if d == 4 {
        '4'
    } else if d == 5 {
        '5'
    } else if d == 6 {
        '6'
    } else if d == 7 {
        '7'
    } else if d == 8 {
        '8'
    } else {
        '9'
    }
}

/// The decimal rendering of `n`, most significant digit first.
pub open spec fn spec_digits(n: nat) -> Seq<char>
    decreases n,
{
    if n < 10 {
        seq![digit_char(n)]
    } else {
        spec_digits(n / 10).push(digit_char(n % 10))
    }
}

pub fn digit_to_char(d: u64) -> (c: char)
    requires
        d < 10,
    ensures
        c == digit_char(d as nat),
{
    if d == 0 {
        '0'
    } else if d == 1 {
        '1'
    } else if d == 2 {
        '2'
    } else if d == 3 {
        '3'
    } else if d == 4 {
        '4'
    } else if d == 5 {
        '5'
    } else if d == 6 {
        '6'
    } else if d == 7 {
        '7'
    } else if d == 8 {
        '8'
    } else {
        '9'
    }
}

pub fn u64_to_dec(n: u64) -> (r: String)
    ensures
        r@ == spec_digits(n as nat),
    decreases n,
{
    if n < 10 {
        let mut r = String::new();
        push_char(&mut r, digit_to_char(n));
        proof {
            assert(Seq::<char>::empty().push(digit_char(n as nat)) =~= seq![
                digit_char(n as nat),
            ]);
        }
        r
    } else {
        let mut r = u64_to_dec(n / 10);
        push_char(&mut r, digit_to_char(n % 10));
        r
    }
}

pub open spec fn is_digit(c: char) -> bool {
    '0' <= c && c <= '9'
}

pub open spec fn digit_val(c: char) -> nat {
    (c as nat - '0' as nat) as nat
}

pub open spec fn all_digits(s: Seq<char>) -> bool {
    forall|i: int| 0 <= i < s.len() ==> is_digit(#[trigger] s[i])
}

/// The value of a string of decimal digits, most significant first.
pub open spec fn digits_val(s: Seq<char>) -> nat
    decreases s.len(),
{
    if s.len() == 0 {
        0
    } else {
        digits_val(s.drop_last()) * 10 + digit_val(s.last())
    }
}

/// What `str::parse::<usize>` accepts: an optional leading `+`, then one or
/// more digits, with a value that fits in `usize`.
pub open spec fn spec_parse_usize(s: Seq<char>) -> Option<usize> {
    let digits = if s.len() > 0 && s[0] == '+' {
        s.skip(1)
    } else {
        s
    };
    if digits.len() > 0 && all_digits(digits) && digits_val(digits) <= usize::MAX {
        Some(digits_val(digits) as usize)
    } else {
        None
    }
}

fn char_digit(c: char) -> (r: Option<u64>)
    ensures
        r is Some <==> is_digit(c),
        r is Some ==> r->0 == digit_val(c) && r->0 < 10,
{
    if '0' <= c && c <= '9' {
        Some((c as u32 as u64) - ('0' as u32 as u64))
    } else {
        None
    }
}

/// The counterpart of `str::parse::<usize>` on a character vector.
pub fn parse_usize(v: &Vec<char>) -> (r: Option<usize>)
    ensures
        r == spec_parse_usize(v@),
{
    let start: usize = if v.len() > 0 && v[0] == '+' {
        1
    } else {
        0
    };
    let ghost digits = v@.skip(start as int);
    proof {
        if start == 0 {
            assert(digits =~= v@);
        }
    }
    if v.len() == start {
        proof {
            assert(digits.len() == 0);
        }
        return None;
    }
    let mut acc: usize = 0;
    let mut i: usize = start;
    while i < v.len()
        invariant
            start <= i <= v.len(),
            start <= 1,
            digits == v@.skip(start as int),
            start == 1 <==> v@.len() > 0 && v@[0] == '+',
            start == 0 ==> digits == v@,
            all_digits(digits.take(i - start)),
            acc == digits_val(digits.take(i - start)),
        decreases v.len() - i,
    {
        proof {
            assert(digits[i - start] == v@[i as int]);
        }
        match char_digit(v[i]) {
            None => {
                proof {
                    assert(!is_digit(digits[i - start]));
                }
                return None;
            },
            Some(d) => {
                proof {
                    assert(digits.take(i + 1 - start).drop_last() =~= digits.take(i - start));
                    assert(digits.take(i + 1 - start).last() == digits[i - start]);
                    assert(digits_val(digits.take(i + 1 - start)) == digits_val(
                        digits.take(i - start),
                    ) * 10 + digit_val(digits[i - start]));
                }
                let scaled = acc.checked_mul(10);
                let next = match scaled {
                    Some(x) => x.checked_add(d as usize),
                    None => None,
                };
                match next {
                    Some(x) => {
                        acc = x;
                    },
                    None => {
                        proof {
                            assert(digits_val(digits.take(i + 1 - start)) > usize::MAX);
                            lemma_digits_val_grows(digits, i + 1 - start);
                            assert(digits_val(digits) > usize::MAX);
                            assert(spec_parse_usize(v@) is None);
                        }
                        return None;
                    },
                }
            },
        }
        i = i + 1;
    }
    proof {
        assert(digits.take(digits.len() as int) =~= digits);
    }
    Some(acc)
}

/// The value of a digit string never falls below the value of any prefix.
proof fn lemma_digits_val_grows(s: Seq<char>, k: int)
    requires
        0 <= k <= s.len(),
    ensures
        digits_val(s) >= digits_val(s.take(k)),
    decreases s.len() - k,
{
    if k < s.len() {
        lemma_digits_val_grows(s, k + 1);
        assert(s.take(k + 1).drop_last() =~= s.take(k));
        assert(digits_val(s.take(k + 1)) >= digits_val(s.take(k)));
    } else {
        assert(s.take(k) =~= s);
    }
}

} // verus!

verus! {

/// The index of the last `/` in `s`, or -1 when there is none.
pub open spec fn spec_last_sep(s: Seq<char>) -> int
    decreases s.len(),
{
    if s.len() == 0 {
        -1
    } else if s.last() == '/' {
        s.len() - 1
    } else {
        spec_last_sep(s.drop_last())
    }
}

/// The parent path: everything before the last `/`, with a bare leading `/`
/// kept, and nothing for separator-free paths or the root `/` itself.
pub open spec fn spec_dirname(s: Seq<char>) -> Option<Seq<char>> {
    let ls = spec_last_sep(s);
    if ls < 0 {
        None
    } else if ls == 0 {
        if s.len() == 1 {
            None
        } else {
            Some(seq!['/'])
        }
    } else {
        Some(s.take(ls))
    }
}

/// The final path component: everything after the last `/`.
pub open spec fn spec_basename(s: Seq<char>) -> Seq<char> {
    let ls = spec_last_sep(s);
    if ls < 0 {
        s
    } else {
        s.skip(ls + 1)
    }
}

/// Joining a directory path and a child name with a `/`, not doubling the
/// separator after the root.
pub open spec fn spec_join(d: Seq<char>, nm: Seq<char>) -> Seq<char> {
    if d == seq!['/'] {
        d + nm
    } else {
        d + seq!['/'] + nm
    }
}

proof fn lemma_last_sep_range(s: Seq<char>)
    ensures
        -1 <= spec_last_sep(s) < s.len(),
        spec_last_sep(s) >= 0 ==> s[spec_last_sep(s)] == '/',
    decreases s.len(),
{
    if s.len() > 0 && s.last() != '/' {
        lemma_last_sep_range(s.drop_last());
        if spec_last_sep(s.drop_last()) >= 0 {
            assert(s.drop_last()[spec_last_sep(s)] == s[spec_last_sep(s)]);
        }
    }
}

fn last_sep(v: &Vec<char>) -> (r: Option<usize>)
    ensures
        match r {
            Some(k) => spec_last_sep(v@) == k as int,
            None => spec_last_sep(v@) == -1,
        },
{
    proof {
        assert(v@.take(v@.len() as int) =~= v@);
    }
    let mut i: usize = v.len();
    while i > 0
        invariant
            i <= v@.len(),
            spec_last_sep(v@) == spec_last_sep(v@.take(i as int)),
        decreases i,
    {
        proof {
            assert(v@.take(i as int).last() == v@[i - 1]);
            assert(v@.take(i as int).drop_last() =~= v@.take(i - 1));
        }
        if v[i - 1] == '/' {
            return Some(i - 1);
        }
        i = i - 1;
    }
    proof {
        assert(v@.take(0) =~= Seq::<char>::empty());
    }
    None
}

/// Copies the character range `[from, to)` into a fresh string.
pub fn chars_range(v: &Vec<char>, from: usize, to: usize) -> (r: String)
    requires
        from <= to <= v@.len(),
    ensures
        r@ == v@.subrange(from as int, to as int),
{
    let mut out = String::new();
    let mut k: usize = from;
    while k < to
        invariant
            from <= k <= to <= v@.len(),
            out@ == v@.subrange(from as int, k as int),
        decreases to - k,
    {
        push_char(&mut out, v[k]);
        proof {
            assert(v@.subrange(from as int, k + 1 as int) =~= v@.subrange(
                from as int,
                k as int,
            ).push(v@[k as int]));
        }
        k = k + 1;
    }
    out
}

/// The parent path of `s`, per `spec_dirname`.
pub fn dirname(s: &String) -> (r: Option<String>)
    ensures
        match spec_dirname(s@) {
            Some(d) => r is Some && r->0@ == d,
            None => r is None,
        },
{
    let v = str_chars(s.as_str());
    proof {
        lemma_last_sep_range(v@);
    }
    match last_sep(&v) {
        None => None,
        Some(k) => {
            if k == 0 {
                if v.len() == 1 {
                    None
                } else {
                    let mut out = String::new();
                    push_char(&mut out, '/');
                    proof {
                        assert(Seq::<char>::empty().push('/') =~= seq!['/']);
                    }
                    Some(out)
                }
            } else {
                proof {
                    assert(v@.subrange(0, k as int) =~= v@.take(k as int));
                }
                Some(chars_range(&v, 0, k))
            }
        },
    }
}

/// The final component of `s`, per `spec_basename`.
pub fn basename(s: &String) -> (r: String)
    ensures
        r@ == spec_basename(s@),
{
    let v = str_chars(s.as_str());
    proof {
        lemma_last_sep_range(v@);
    }
    match last_sep(&v) {
        None => {
            proof {
                assert(v@.subrange(0, v@.len() as int) =~= v@);
            }
            chars_range(&v, 0, v.len())
        },
        Some(k) => {
            proof {
                assert(v.len() == v@.len());
                assert(v@.subrange(k + 1, v@.len() as int) =~= v@.skip(k + 1));
            }
            chars_range(&v, k + 1, v.len())
        },
    }
}

/// Joins a directory path and a child name, per `spec_join`.
pub fn join_path(d: &String, nm: &String) -> (r: String)
    ensures
        r@ == spec_join(d@, nm@),
{
    let dv = str_chars(d.as_str());
    let is_root = dv.len() == 1 && dv[0] == '/';
    proof {
        if is_root {
            assert(dv@ =~= seq!['/']);
        } else {
            assert(dv@ != seq!['/']);
        }
    }
    let mut out = d.clone();
    if !is_root {
        push_char(&mut out, '/');
    }
    let nv = str_chars(nm.as_str());
    let mut k: usize = 0;
    let ghost base = out@;
    while k < nv.len()
        invariant
            k <= nv@.len(),
            out@ == base + nv@.take(k as int),
        decreases nv.len() - k,
    {
        proof {
            assert(base + nv@.take(k + 1 as int) =~= (base + nv@.take(k as int)).push(
                nv@[k as int],
            ));
        }
        push_char(&mut out, nv[k]);
        k = k + 1;
    }
    proof {
        assert(base + nv@.take(nv@.len() as int) =~= base + nv@);
        if is_root {
            assert(d@ + nm@ =~= base + nv@);
        } else {
            assert(d@ + seq!['/'] + nm@ =~= base + nv@);
        }
    }
    out
}

} // verus!

verus! {

/// The `/`-separated components of a path, empty ones dropped, accumulated
/// left to right.
pub open spec fn comps_acc(s: Seq<char>, cur: Seq<char>) -> Seq<Seq<char>>
    decreases s.len(),
{
    if s.len() == 0 {
        if cur.len() > 0 {
            seq![cur]
        } else {
            Seq::empty()
        }
    } else if s[0] == '/' {
        (if cur.len() > 0 {
            seq![cur]
        } else {
            Seq::empty()
        }) + comps_acc(s.skip(1), Seq::empty())
    } else {
        comps_acc(s.skip(1), cur.push(s[0]))
    }
}

/// The non-empty `/`-separated components of a path.
pub open spec fn spec_components(s: Seq<char>) -> Seq<Seq<char>> {
    comps_acc(s, Seq::empty())
}

/// Splits a path into its non-empty components.
pub fn split_components(s: &String) -> (r: Vec<String>)
    ensures
        r.deep_view() == spec_components(s@),
{
    let v = str_chars(s.as_str());
    let mut out: Vec<String> = Vec::new();
    let mut cur: Vec<char> = Vec::new();
    let mut i: usize = 0;
    proof {
        assert(v@.skip(0) =~= v@);
    }
    while i < v.len()
        invariant
            i <= v@.len(),
            v@ == s@,
            spec_components(s@) == out.deep_view() + comps_acc(v@.skip(i as int), cur@),
        decreases v.len() - i,
    {
        let ghost rest = v@.skip(i as int);
        proof {
            assert(rest[0] == v@[i as int]);
            assert(rest.skip(1) =~= v@.skip(i + 1));
        }
        if v[i] == '/' {
            proof {
                assert(comps_acc(rest, cur@) == (if cur@.len() > 0 {
                    seq![cur@]
                } else {
                    Seq::<Seq<char>>::empty()
                }) + comps_acc(rest.skip(1), Seq::empty()));
            }
            if cur.len() > 0 {
                let ghost outpre = out.deep_view();
                let ghost word = cur@;
                let w = chars_to_string(&cur);
                out.push(w);
                cur = Vec::new();
                proof {
                    assert(out.deep_view() =~= outpre + seq![word]);
                    assert(cur@ =~= Seq::<char>::empty());
                    assert(outpre + (seq![word] + comps_acc(rest.skip(1), Seq::empty()))
                        =~= (outpre + seq![word]) + comps_acc(rest.skip(1), Seq::empty()));
                }
            } else {
                proof {
                    assert(cur@ =~= Seq::<char>::empty());
                    assert(Seq::<Seq<char>>::empty() + comps_acc(rest.skip(1), Seq::empty())
                        =~= comps_acc(rest.skip(1), Seq::empty()));
                }
            }
        } else {
            let ghost curpre = cur@;
            cur.push(v[i]);
            proof {
                assert(cur@ == curpre.push(rest[0]));
                assert(comps_acc(rest, curpre) == comps_acc(rest.skip(1), curpre.push(rest[0])));
            }
        }
        i = i + 1;
        proof {
            assert(out.deep_view() + comps_acc(v@.skip(i as int), cur@) =~= spec_components(s@));
        }
    }
    proof {
        assert(v@.skip(i as int) =~= Seq::<char>::empty());
    }
    if cur.len() > 0 {
        let ghost outpre = out.deep_view();
        let ghost word = cur@;
        let w = chars_to_string(&cur);
        out.push(w);
        proof {
            assert(out.deep_view() =~= outpre + seq![word]);
        }
    }
    proof {
        assert(out.deep_view() =~= spec_components(s@));
    }
    out
}

/// Whether `p` is a prefix of `s`.
pub open spec fn spec_starts_with(s: Seq<char>, p: Seq<char>) -> bool {
    s.len() >= p.len() && s.take(p.len() as int) == p
}

/// The remainder of `s` after the prefix `p`, or `s` itself when `p` is not
/// a prefix; how a path is made relative to the root's own path.
pub open spec fn spec_strip_prefix(s: Seq<char>, p: Seq<char>) -> Seq<char> {
    if spec_starts_with(s, p) {
        s.skip(p.len() as int)
    } else {
        s
    }
}

/// Whether the string starts with the given prefix.
pub fn starts_with(s: &String, p: &String) -> (r: bool)
    ensures
        r == spec_starts_with(s@, p@),
{
    let sv = str_chars(s.as_str());
    let pv = str_chars(p.as_str());
    if sv.len() < pv.len() {
        proof {
            assert(!spec_starts_with(s@, p@));
        }
        return false;
    }
    let mut i: usize = 0;
    while i < pv.len()
        invariant
            i <= pv@.len() <= sv@.len(),
            sv@ == s@,
            pv@ == p@,
            forall|k: int| 0 <= k < i ==> sv@[k] == pv@[k],
        decreases pv.len() - i,
    {
        if sv[i] != pv[i] {
            proof {
                assert(s@.take(p@.len() as int)[i as int] != p@[i as int]);
            }
            return false;
        }
        i = i + 1;
    }
    proof {
        assert(s@.take(p@.len() as int) =~= p@);
    }
    true
}

/// The remainder of `s` after the prefix `p`, per `spec_strip_prefix`.
pub fn strip_prefix(s: &String, p: &String) -> (r: String)
    ensures
        r@ == spec_strip_prefix(s@, p@),
{
    if starts_with(s, p) {
        let sv = str_chars(s.as_str());
        let pv = str_chars(p.as_str());
        proof {
            assert(sv.len() == sv@.len());
            assert(sv@.subrange(pv@.len() as int, sv@.len() as int) =~= s@.skip(p@.len() as int));
        }
        chars_range(&sv, pv.len(), sv.len())
    } else {
        s.clone()
    }
}

} // verus!

verus! {

pub open spec fn is_space(c: char) -> bool {
    c == ' ' || c == '\t' || c == '\n' || c == '\r'
}

/// The number of leading whitespace characters.
pub open spec fn spec_ws_start(s: Seq<char>) -> int
    decreases s.len(),
{
    if s.len() > 0 && is_space(s[0]) {
        1 + spec_ws_start(s.skip(1))
    } else {
        0
    }
}

/// The length of `s` without its trailing whitespace.
pub open spec fn spec_ws_end_len(s: Seq<char>) -> int
    decreases s.len(),
{
    if s.len() > 0 && is_space(s.last()) {
        spec_ws_end_len(s.drop_last())
    } else {
        s.len() as int
    }
}

/// `s` without leading and trailing whitespace.
pub open spec fn spec_trim(s: Seq<char>) -> Seq<char> {
    let t = s.take(spec_ws_end_len(s));
    t.skip(spec_ws_start(t))
}

proof fn lemma_ws_bounds(s: Seq<char>)
    ensures
        0 <= spec_ws_start(s) <= s.len(),
        0 <= spec_ws_end_len(s) <= s.len(),
    decreases s.len(),
{
    if s.len() > 0 {
        lemma_ws_bounds(s.skip(1));
        lemma_ws_bounds(s.drop_last());
    }
}

proof fn lemma_ws_start_chars(s: Seq<char>, k: int)
    requires
        0 <= k <= s.len(),
        forall|x: int| 0 <= x < k ==> is_space(#[trigger] s[x]),
        k == s.len() || !is_space(s[k]),
    ensures
        spec_ws_start(s) == k,
    decreases s.len(),
{
    if s.len() > 0 && is_space(s[0]) {
        assert(k >= 1);
        assert forall|x: int| 0 <= x < k - 1 implies is_space(#[trigger] s.skip(1)[x]) by {
            assert(s.skip(1)[x] == s[x + 1]);
        }
        if k - 1 < s.skip(1).len() {
            assert(s.skip(1)[k - 1] == s[k]);
        }
        lemma_ws_start_chars(s.skip(1), k - 1);
    } else {
        assert(k == 0);
    }
}

proof fn lemma_ws_end_chars(s: Seq<char>, k: int)
    requires
        0 <= k <= s.len(),
        forall|x: int| k <= x < s.len() ==> is_space(#[trigger] s[x]),
        k == 0 || !is_space(s[k - 1]),
    ensures
        spec_ws_end_len(s) == k,
    decreases s.len(),
{
    if s.len() > 0 && is_space(s.last()) {
        assert(k < s.len());
        assert forall|x: int| k <= x < s.drop_last().len() implies is_space(
            #[trigger] s.drop_last()[x],
        ) by {
            assert(s.drop_last()[x] == s[x]);
        }
        lemma_ws_end_chars(s.drop_last(), k);
    } else {
        assert(k == s.len());
    }
}

/// Trims whitespace from both ends, per `spec_trim`.
pub fn trim_chars(v: &Vec<char>) -> (r: Vec<char>)
    ensures
        r@ == spec_trim(v@),
{
    proof {
        lemma_ws_bounds(v@);
    }
    let mut b = v.len();
    while b > 0 && (v[b - 1] == ' ' || v[b - 1] == '\t' || v[b - 1] == '\n' || v[b - 1] == '\r')
        invariant
            b <= v@.len(),
            forall|x: int| b <= x < v@.len() ==> is_space(#[trigger] v@[x]),
        decreases b,
    {
        b = b - 1;
    }
    proof {
        lemma_ws_end_chars(v@, b as int);
    }
    let mut a: usize = 0;
    while a < b && (v[a] == ' ' || v[a] == '\t' || v[a] == '\n' || v[a] == '\r')
        invariant
            a <= b <= v@.len(),
            forall|x: int| 0 <= x < a ==> is_space(#[trigger] v@[x]),
        decreases b - a,
    {
        a = a + 1;
    }
    let ghost t = v@.take(b as int);
    proof {
        assert forall|x: int| 0 <= x < a implies is_space(#[trigger] t[x]) by {
            assert(t[x] == v@[x]);
        }
        if a < t.len() {
            assert(t[a as int] == v@[a as int]);
            assert(!is_space(t[a as int]));
        }
        lemma_ws_start_chars(t, a as int);
    }
    let mut out: Vec<char> = Vec::new();
    let mut k = a;
    while k < b
        invariant
            a <= k <= b <= v@.len(),
            out@ == v@.subrange(a as int, k as int),
        decreases b - k,
    {
        proof {
            assert(v@.subrange(a as int, k + 1 as int) =~= v@.subrange(a as int, k as int).push(
                v@[k as int],
            ));
        }
        out.push(v[k]);
        k = k + 1;
    }
    proof {
        assert(out@ =~= spec_trim(v@));
    }
    out
}

} // verus!
