//! Character-level string helpers shared by the parser, renderers and loaders.
//!
//! Text is modelled as `Seq<char>` (the view of `str` and `String`).
use vstd::prelude::*;

verus! {

broadcast use vstd::string::group_string_axioms;

// ── Specifications ──────────────────────────────────────────────────────────

/// `pat` occurs in `s` starting at index `i`.
pub open spec fn occurs_at(s: Seq<char>, pat: Seq<char>, i: int) -> bool {
    0 <= i && i + pat.len() <= s.len() && s.subrange(i, i + pat.len()) == pat
}

/// `pat` occurs somewhere in `s`.
pub open spec fn contains_seq(s: Seq<char>, pat: Seq<char>) -> bool {
    exists|i: int| occurs_at(s, pat, i)
}

/// `s` begins with `pat`.
pub open spec fn starts_with(s: Seq<char>, pat: Seq<char>) -> bool {
    pat.len() <= s.len() && s.subrange(0, pat.len() as int) == pat
}

/// Unicode `White_Space`, the set that `char::is_whitespace` tests.
pub open spec fn is_ws(c: char) -> bool {
    let n = c as u32;
    (0x09 <= n && n <= 0x0D) || n == 0x20 || n == 0x85 || n == 0xA0 || n == 0x1680
        || (0x2000 <= n && n <= 0x200A) || n == 0x2028 || n == 0x2029 || n == 0x202F
        || n == 0x205F || n == 0x3000
}

/// Number of leading whitespace characters of `s`.
pub open spec fn lead_ws(s: Seq<char>) -> nat
    decreases s.len(),
{
    if s.len() > 0 && is_ws(s[0]) {
        1 + lead_ws(s.drop_first())
    } else {
        0
    }
}

/// Number of trailing whitespace characters of `s`.
pub open spec fn trail_ws(s: Seq<char>) -> nat
    decreases s.len(),
{
    if s.len() > 0 && is_ws(s.last()) {
        1 + trail_ws(s.drop_last())
    } else {
        0
    }
}

/// `s` without leading whitespace (`str::trim_start`).
pub open spec fn trim_start(s: Seq<char>) -> Seq<char> {
    s.subrange(lead_ws(s) as int, s.len() as int)
}

/// `s` without trailing whitespace (`str::trim_end`).
pub open spec fn trim_end(s: Seq<char>) -> Seq<char> {
    s.subrange(0, s.len() - trail_ws(s))
}

/// `s` without leading and trailing whitespace (`str::trim`).
pub open spec fn trim(s: Seq<char>) -> Seq<char> {
    trim_end(trim_start(s))
}

/// `s` holds only whitespace (so `trim(s)` is empty).
pub open spec fn all_ws(s: Seq<char>) -> bool {
    forall|i: int| 0 <= i < s.len() ==> is_ws(#[trigger] s[i])
}

/// Every occurrence of `from` replaced by `to`.
pub open spec fn replace_char(s: Seq<char>, from: char, to: char) -> Seq<char> {
    s.map_values(|c: char| if c == from { to } else { c })
}

/// The parts of `parts` joined by `sep`.
pub open spec fn join(parts: Seq<Seq<char>>, sep: Seq<char>) -> Seq<char>
    decreases parts.len(),
{
    if parts.len() == 0 {
        seq![]
    } else if parts.len() == 1 {
        parts[0]
    } else {
        join(parts.drop_last(), sep) + sep + parts.last()
    }
}

/// Views of a list of strings.
pub open spec fn views(v: Seq<String>) -> Seq<Seq<char>> {
    v.map_values(|s: String| s@)
}

/// Full Unicode lowercase mapping of `s`, as `str::to_lowercase` computes it.
pub uninterp spec fn lowercase(s: Seq<char>) -> Seq<char>;

/// The Rust `Debug` rendering of a string (quoted and escaped).
pub uninterp spec fn debug_text(s: Seq<char>) -> Seq<char>;

/// Unicode `Uppercase` property, as `char::is_uppercase` tests it.
pub uninterp spec fn is_upper(c: char) -> bool;

/// Unicode `Lowercase` property, as `char::is_lowercase` tests it.
pub uninterp spec fn is_lower(c: char) -> bool;

/// ASCII lowercase of one character (`char::to_ascii_lowercase`).
pub open spec fn ascii_lower(c: char) -> char {
    if 'A' <= c && c <= 'Z' {
        ((c as u32) + 32) as char
    } else {
        c
    }
}

/// ASCII lowercase of a string (`str::to_ascii_lowercase`).
pub open spec fn ascii_lower_seq(s: Seq<char>) -> Seq<char> {
    s.map_values(|c: char| ascii_lower(c))
}

/// ASCII hexadecimal digit (`u8::is_ascii_hexdigit`).
pub open spec fn is_hex(c: char) -> bool {
    ('0' <= c && c <= '9') || ('a' <= c && c <= 'f') || ('A' <= c && c <= 'F')
}

/// ASCII decimal digit.
pub open spec fn is_digit(c: char) -> bool {
    '0' <= c && c <= '9'
}

// ── Trusted calls into std ─────────────────────────────────────────────────

/// Appends one character: `String::push`, which documents that it appends
/// the given `char` to the end of the string.
#[verifier::external_body]
pub(crate) fn push_char(s: &mut String, c: char)
    ensures
        final(s)@ == old(s)@.push(c),
{
    s.push(c);
}

/// `str::to_lowercase`: the Unicode lowercase mapping. Its result is named
/// `lowercase`; nothing more is claimed of it.
#[verifier::external_body]
pub(crate) fn to_lowercase(s: &str) -> (r: String)
    ensures
        r@ == lowercase(s@),
{
    s.to_lowercase()
}

/// The `Debug` rendering of a string (`format!("{:?}", s)`), named
/// `debug_text`; nothing more is claimed of it.
#[verifier::external_body]
pub(crate) fn debug_string(s: &str) -> (r: String)
    ensures
        r@ == debug_text(s@),
{
    format!("{:?}", s)
}

/// `char::is_uppercase`, named `is_upper`.
#[verifier::external_body]
pub(crate) fn char_is_uppercase(c: char) -> (r: bool)
    ensures
        r == is_upper(c),
{
    c.is_uppercase()
}

/// `char::is_lowercase`, named `is_lower`.
#[verifier::external_body]
pub(crate) fn char_is_lowercase(c: char) -> (r: bool)
    ensures
        r == is_lower(c),
{
    c.is_lowercase()
}

// ── Decimal numbers ─────────────────────────────────────────────────────────

/// The decimal text of an unsigned number, as `u64::to_string` writes it.
pub(crate) fn u64_text(n: u64) -> (r: String)
    ensures
        r@ == decimal(n as int),
{
    let mut rev: Vec<char> = Vec::new();
    let mut m: u64 = n;
    while m >= 10
        invariant
            decimal(n as int) == decimal(m as int) + rev@.reverse(),
        decreases m,
    {
        let d: char = digit_char((m % 10) as u8);
        proof {
            assert(rev@.push(d).reverse() =~= seq![d] + rev@.reverse());
            assert(decimal(m as int) == decimal(m as int / 10) + seq![d]);
        }
        rev.push(d);
        m = m / 10;
    }
    let mut r = String::new();
    push_char(&mut r, digit_char(m as u8));
    let mut i: usize = rev.len();
    while i > 0
        invariant
            i <= rev@.len(),
            decimal(n as int) == decimal(m as int) + rev@.reverse(),
            r@ == decimal(m as int) + rev@.subrange(i as int, rev@.len() as int).reverse(),
        decreases i,
    {
        i = i - 1;
        proof {
            assert(rev@.subrange(i as int, rev@.len() as int).reverse() =~= rev@.subrange(
                i + 1,
                rev@.len() as int,
            ).reverse().push(rev@[i as int]));
        }
        push_char(&mut r, rev[i]);
    }
    proof {
        assert(rev@.subrange(0, rev@.len() as int) =~= rev@);
    }
    r
}

/// The character of a decimal digit.
fn digit_char(d: u8) -> (c: char)
    requires
        d < 10,
    ensures
        c == ((d + 48) as char),
        decimal(d as int) == seq![c],
{
    (d + 48) as char
}

/// The decimal text of a signed number, as `i64::to_string` writes it: a
/// leading `-` when negative.
pub(crate) fn i64_text(n: i64) -> (r: String)
    ensures
        r@ == decimal(n as int),
{
    if n < 0 {
        let m: u64 = ((-(n + 1)) as u64) + 1;
        let t = u64_text(m);
        let mut r = String::new();
        push_char(&mut r, '-');
        r.append(t.as_str());
        r
    } else {
        u64_text(n as u64)
    }
}

/// The value of a string of decimal digits.
pub open spec fn digits_value(s: Seq<char>) -> int
    decreases s.len(),
{
    if s.len() == 0 {
        0
    } else {
        digits_value(s.drop_last()) * 10 + (s.last() as int - 48)
    }
}

/// What `str::parse::<u64>` accepts: an optional `+` followed by one or more
/// decimal digits whose value fits in a `u64`.
pub open spec fn u64_value(s: Seq<char>) -> Option<u64> {
    let d = if s.len() > 0 && s[0] == '+' {
        s.drop_first()
    } else {
        s
    };
    match bounded_digits(d, u64::MAX as int) {
        Some(x) => Some(x as u64),
        None => None,
    }
}

/// A non-empty run of decimal digits.
pub open spec fn all_digits(d: Seq<char>) -> bool {
    d.len() > 0 && forall|i: int| 0 <= i < d.len() ==> is_digit(#[trigger] d[i])
}

/// The value of a non-empty run of decimal digits, when it is at most
/// `limit`.
pub open spec fn bounded_digits(d: Seq<char>, limit: int) -> Option<int> {
    if all_digits(d) && digits_value(d) <= limit {
        Some(digits_value(d))
    } else {
        None
    }
}

/// A run of digits has a value no smaller than that of any of its prefixes,
/// and no smaller than 0.
proof fn lemma_digits_prefix(d: Seq<char>, k: int)
    requires
        0 <= k <= d.len(),
        forall|i: int| 0 <= i < d.len() ==> is_digit(#[trigger] d[i]),
    ensures
        0 <= digits_value(d.take(k)) <= digits_value(d),
    decreases d.len(),
{
    if k == d.len() {
        assert(d.take(k) =~= d);
        if d.len() > 0 {
            lemma_digits_prefix(d.drop_last(), 0);
            assert(d.drop_last().take(0) =~= d.take(0));
        }
    } else {
        let e = d.drop_last();
        assert(e.take(k) =~= d.take(k));
        assert forall|i: int| 0 <= i < e.len() implies is_digit(#[trigger] e[i]) by {
            assert(e[i] == d[i]);
        }
        lemma_digits_prefix(e, k);
        assert(is_digit(d[d.len() - 1]));
    }
}

/// The value of the digits `v[start..]` when they are at least one, all
/// decimal digits, and at most `limit`.
fn digits_upto(v: &Vec<char>, start: usize, limit: u64) -> (r: Option<u64>)
    requires
        start <= v@.len(),
    ensures
        match r {
            Some(x) => bounded_digits(v@.subrange(start as int, v@.len() as int), limit as int)
                == Some(x as int),
            None => bounded_digits(v@.subrange(start as int, v@.len() as int), limit as int) is None,
        },
{
    let ghost d = v@.subrange(start as int, v@.len() as int);
    if start == v.len() {
        return None;
    }
    let mut i: usize = start;
    while i < v.len()
        invariant
            start <= i <= v@.len(),
            d == v@.subrange(start as int, v@.len() as int),
            forall|j: int| 0 <= j < i - start ==> is_digit(#[trigger] d[j]),
        decreases v@.len() - i,
    {
        if !(v[i] >= '0' && v[i] <= '9') {
            proof {
                assert(!is_digit(d[i - start]));
            }
            return None;
        }
        i = i + 1;
    }
    let mut acc: u64 = 0;
    let mut k: usize = start;
    while k < v.len()
        invariant
            start <= k <= v@.len(),
            d == v@.subrange(start as int, v@.len() as int),
            forall|j: int| 0 <= j < d.len() ==> is_digit(#[trigger] d[j]),
            acc == digits_value(d.take(k - start)),
            acc <= limit,
        decreases v@.len() - k,
    {
        let ghost n = k - start;
        proof {
            assert(d.take(n + 1).drop_last() =~= d.take(n));
            assert(d.take(n + 1).last() == d[n]);
            assert(is_digit(d[n]));
        }
        let dv: u64 = ((v[k] as u32) - 48) as u64;
        let next = match acc.checked_mul(10) {
            Some(x) => x.checked_add(dv),
            None => None,
        };
        match next {
            Some(y) if y <= limit => {
                acc = y;
            },
            _ => {
                proof {
                    lemma_digits_prefix(d, n + 1);
                }
                return None;
            },
        }
        k = k + 1;
    }
    proof {
        assert(d.take(d.len() as int) =~= d);
    }
    Some(acc)
}

/// Parses an unsigned decimal as `str::parse::<u64>` does: an optional `+`
/// followed only by digits, failing on overflow.
pub(crate) fn parse_u64(s: &str) -> (r: Option<u64>)
    ensures
        r == u64_value(s@),
{
    let v = chars_of(s);
    let start: usize = if v.len() > 0 && v[0] == '+' {
        1
    } else {
        0
    };
    proof {
        if start == 1 {
            assert(v@.subrange(1, v@.len() as int) =~= s@.drop_first());
        } else {
            assert(v@.subrange(0, v@.len() as int) =~= s@);
        }
    }
    digits_upto(&v, start, u64::MAX)
}

/// The value of an optional `+` or `-` sign followed by one or more decimal
/// digits, or `None` for any other text.
pub open spec fn signed_value(s: Seq<char>) -> Option<int> {
    let d = if s.len() > 0 && (s[0] == '+' || s[0] == '-') {
        s.drop_first()
    } else {
        s
    };
    if all_digits(d) {
        Some(
            if s[0] == '-' {
                -digits_value(d)
            } else {
                digits_value(d)
            },
        )
    } else {
        None
    }
}

/// What `str::parse::<i32>` accepts: a signed decimal that fits in an `i32`.
pub open spec fn i32_value(s: Seq<char>) -> Option<i32> {
    match signed_value(s) {
        Some(v) => if i32::MIN <= v && v <= i32::MAX {
            Some(v as i32)
        } else {
            None
        },
        None => None,
    }
}

/// What `str::parse::<i64>` accepts: a signed decimal that fits in an `i64`.
pub open spec fn i64_value(s: Seq<char>) -> Option<i64> {
    match signed_value(s) {
        Some(v) => if i64::MIN <= v && v <= i64::MAX {
            Some(v as i64)
        } else {
            None
        },
        None => None,
    }
}

/// The text of the `ParseIntError` that `str::parse::<i32>` reports for `s`.
pub uninterp spec fn int_error_text(s: Seq<char>) -> Seq<char>;

/// The message of the error `str::parse::<i32>` reports for a text it does
/// not accept (its `Display` text), named `int_error_text`. It is called
/// only on such text; on any other it returns an empty string.
#[verifier::external_body]
fn int_error_message(s: &str) -> (m: String)
    requires
        i32_value(s@) is None,
    ensures
        m@ == int_error_text(s@),
{
    match s.parse::<i32>() {
        Ok(_) => String::new(),
        Err(e) => e.to_string(),
    }
}

/// Parses a signed decimal as `str::parse::<i32>` does: an optional `+` or
/// `-` followed only by digits, failing when the value does not fit; the
/// error is the message `str::parse` gives.
pub(crate) fn parse_i32(s: &str) -> (r: Result<i32, String>)
    ensures
        match r {
            Ok(n) => i32_value(s@) == Some(n),
            Err(m) => i32_value(s@) is None && m@ == int_error_text(s@),
        },
{
    match parse_i64(s) {
        Some(n) => {
            if -2147483648 <= n && n <= 2147483647 {
                Ok(n as i32)
            } else {
                Err(int_error_message(s))
            }
        },
        None => Err(int_error_message(s)),
    }
}

/// Parses a signed decimal as `str::parse::<i64>` does: an optional `+` or
/// `-` followed only by digits, failing when the value does not fit.
pub(crate) fn parse_i64(s: &str) -> (r: Option<i64>)
    ensures
        r == i64_value(s@),
{
    let v = chars_of(s);
    let signed = v.len() > 0 && (v[0] == '+' || v[0] == '-');
    let start: usize = if signed {
        1
    } else {
        0
    };
    let ghost d = v@.subrange(start as int, v@.len() as int);
    proof {
        if signed {
            assert(d =~= s@.drop_first());
        } else {
            assert(d =~= s@);
        }
    }
    if signed && v[0] == '-' {
        match digits_upto(&v, start, 9223372036854775808u64) {
            Some(x) => {
                if x == 9223372036854775808u64 {
                    Some(i64::MIN)
                } else {
                    Some(-(x as i64))
                }
            },
            None => None,
        }
    } else {
        match digits_upto(&v, start, 9223372036854775807u64) {
            Some(x) => Some(x as i64),
            None => None,
        }
    }
}

/// Decimal rendering of an integer, with a leading `-` when negative.
pub open spec fn decimal(n: int) -> Seq<char>
    decreases (if n < 0 { 1 - n } else { n }),
{
    if n < 0 {
        seq!['-'] + decimal(-n)
    } else if n < 10 {
        seq![(n + 48) as char]
    } else {
        decimal(n / 10) + seq![((n % 10) + 48) as char]
    }
}

// ── Executable helpers ──────────────────────────────────────────────────────

/// The characters of `s`, in order.
pub fn chars_of(s: &str) -> (r: Vec<char>)
    ensures
        r@ == s@,
{
    let mut v: Vec<char> = Vec::new();
    for c in it: s.chars()
        invariant
            v@ == it.seq().take(it.index()),
            it.seq() == s@,
    {
        v.push(c);
    }
    v
}

/// A string holding `v[lo..hi]`.
pub fn string_of_range(v: &Vec<char>, lo: usize, hi: usize) -> (r: String)
    requires
        lo <= hi <= v.len(),
    ensures
        r@ == v@.subrange(lo as int, hi as int),
{
    let mut s = String::new();
    let mut i = lo;
    while i < hi
        invariant
            lo <= i <= hi <= v.len(),
            s@ == v@.subrange(lo as int, i as int),
        decreases hi - i,
    {
        push_char(&mut s, v[i]);
        i = i + 1;
    }
    s
}

/// A string holding exactly the characters of `v`.
pub fn string_of(v: &Vec<char>) -> (r: String)
    ensures
        r@ == v@,
{
    let r = string_of_range(v, 0, v.len());
    assert(v@.subrange(0, v@.len() as int) == v@);
    r
}

/// A copy of `s`.
pub fn copy_string(s: &String) -> (r: String)
    ensures
        r@ == s@,
{
    s.clone()
}

/// `s` followed by `t`.
pub fn append_to(s: &mut String, t: &String)
    ensures
        final(s)@ == old(s)@ + t@,
{
    s.append(t.as_str());
}

/// Whether two character sequences are equal.
pub fn chars_eq(a: &Vec<char>, b: &Vec<char>) -> (r: bool)
    ensures
        r == (a@ == b@),
{
    if a.len() != b.len() {
        return false;
    }
    let mut i: usize = 0;
    while i < a.len()
        invariant
            a.len() == b.len(),
            i <= a.len(),
            a@.subrange(0, i as int) == b@.subrange(0, i as int),
        decreases a.len() - i,
    {
        if a[i] != b[i] {
            assert(a@[i as int] != b@[i as int]);
            return false;
        }
        assert(a@.subrange(0, i + 1) == a@.subrange(0, i as int).push(a@[i as int]));
        assert(b@.subrange(0, i + 1) == b@.subrange(0, i as int).push(b@[i as int]));
        i = i + 1;
    }
    assert(a@ == a@.subrange(0, a.len() as int));
    assert(b@ == b@.subrange(0, b.len() as int));
    true
}

/// Whether `v[at..]` begins with `pat`.
pub fn matches_at(v: &Vec<char>, at: usize, pat: &Vec<char>) -> (r: bool)
    requires
        at <= v.len(),
    ensures
        r == occurs_at(v@, pat@, at as int),
{
    if pat.len() > v.len() - at {
        return false;
    }
    let mut j: usize = 0;
    while j < pat.len()
        invariant
            at + pat.len() <= v.len(),
            j <= pat.len(),
            v@.subrange(at as int, at + j) == pat@.subrange(0, j as int),
        decreases pat.len() - j,
    {
        if v[at + j] != pat[j] {
            assert(v@.subrange(at as int, at + pat.len())[j as int] != pat@[j as int]);
            return false;
        }
        assert(v@.subrange(at as int, at + j + 1) == v@.subrange(at as int, at + j).push(
            v@[at + j],
        ));
        assert(pat@.subrange(0, j + 1) == pat@.subrange(0, j as int).push(pat@[j as int]));
        j = j + 1;
    }
    assert(pat@.subrange(0, pat.len() as int) == pat@);
    true
}

/// Whether `pat` occurs in `v`.
pub fn contains_chars(v: &Vec<char>, pat: &Vec<char>) -> (r: bool)
    ensures
        r == contains_seq(v@, pat@),
{
    let mut i: usize = 0;
    while i <= v.len()
        invariant
            i <= v.len() + 1,
            forall|k: int| 0 <= k < i ==> !occurs_at(v@, pat@, k),
        decreases v.len() + 1 - i,
    {
        if matches_at(v, i, pat) {
            return true;
        }
        if i == v.len() {
            assert forall|k: int| #![auto] occurs_at(v@, pat@, k) implies false by {
                assert(k <= v.len());
            }
            return false;
        }
        i = i + 1;
    }
    false
}

/// Whether `s` contains `pat`.
pub fn str_contains(s: &str, pat: &str) -> (r: bool)
    ensures
        r == contains_seq(s@, pat@),
{
    let v = chars_of(s);
    let p = chars_of(pat);
    contains_chars(&v, &p)
}

/// Whether `s` begins with `pat`.
pub fn str_starts_with(s: &str, pat: &str) -> (r: bool)
    ensures
        r == starts_with(s@, pat@),
{
    let v = chars_of(s);
    let p = chars_of(pat);
    matches_at(&v, 0, &p)
}

/// Number of leading whitespace characters of `v[from..]`.
pub(crate) fn lead_ws_len(v: &Vec<char>, from: usize) -> (r: usize)
    requires
        from <= v.len(),
    ensures
        from + r <= v.len(),
        r == lead_ws(v@.subrange(from as int, v.len() as int)),
{
    let mut k = from;
    while k < v.len() && is_ws_exec(v[k])
        invariant
            from <= k <= v.len(),
            lead_ws(v@.subrange(from as int, v.len() as int)) == (k - from) + lead_ws(
                v@.subrange(k as int, v.len() as int),
            ),
        decreases v.len() - k,
    {
        assert(v@.subrange(k + 1, v.len() as int) == v@.subrange(k as int, v.len() as int).drop_first());
        k = k + 1;
    }
    k - from
}

/// `char::is_whitespace`.
pub fn is_ws_exec(c: char) -> (r: bool)
    ensures
        r == is_ws(c),
{
    let n = c as u32;
    (0x09 <= n && n <= 0x0D) || n == 0x20 || n == 0x85 || n == 0xA0 || n == 0x1680 || (0x2000
        <= n && n <= 0x200A) || n == 0x2028 || n == 0x2029 || n == 0x202F || n == 0x205F || n
        == 0x3000
}

} // verus!

verus! {

/// Whether `s` is empty or holds only whitespace (`s.trim().is_empty()`).
pub fn is_blank(s: &str) -> (r: bool)
    ensures
        r == all_ws(s@),
{
    let v = chars_of(s);
    let mut i: usize = 0;
    while i < v.len()
        invariant
            i <= v.len(),
            v@ == s@,
            forall|k: int| 0 <= k < i ==> is_ws(#[trigger] v@[k]),
        decreases v.len() - i,
    {
        if !is_ws_exec(v[i]) {
            return false;
        }
        i = i + 1;
    }
    true
}

/// The character at `i` of `s` is whitespace.
pub open spec fn ws_at(s: Seq<char>) -> spec_fn(int) -> bool {
    |i: int| is_ws(s[i])
}

/// The words of `s`: its maximal runs of non-whitespace characters
/// (`str::split_whitespace`).
pub open spec fn split_ws(s: Seq<char>) -> Seq<Seq<char>>
    decreases s.len(),
{
    if s.len() == 0 {
        seq![]
    } else if is_ws(s[0]) {
        split_ws(s.drop_first())
    } else {
        let k = crate::model::first_where(1, s.len() as int, ws_at(s));
        proof {
            crate::model::lemma_first_where_spec(1, s.len() as int, ws_at(s));
        }
        seq![s.subrange(0, k)] + split_ws(s.subrange(k, s.len() as int))
    }
}

/// The words of `s` (`str::split_whitespace`).
pub fn split_whitespace(s: &str) -> (r: Vec<String>)
    ensures
        views(r@) == split_ws(s@),
{
    let v = chars_of(s);
    let n = v.len();
    let mut out: Vec<String> = Vec::new();
    let mut i: usize = 0;
    assert(v@.subrange(0, n as int) =~= v@);
    while i < n
        invariant
            i <= n,
            n == v@.len(),
            v@ == s@,
            split_ws(s@) == views(out@) + split_ws(v@.subrange(i as int, n as int)),
        decreases n - i,
    {
        let ghost rest = v@.subrange(i as int, n as int);
        if is_ws_exec(v[i]) {
            proof {
                assert(rest.drop_first() =~= v@.subrange(i + 1, n as int));
            }
            i = i + 1;
        } else {
            let mut j: usize = i + 1;
            while j < n && !is_ws_exec(v[j])
                invariant
                    i < j <= n,
                    n == v@.len(),
                    rest == v@.subrange(i as int, n as int),
                    forall|m: int| 1 <= m < j - i ==> !(#[trigger] ws_at(rest)(m)),
                decreases n - j,
            {
                j = j + 1;
            }
            proof {
                if j < n {
                    crate::model::lemma_first_where_at(1, rest.len() as int, ws_at(rest), j - i);
                } else {
                    crate::model::lemma_first_where_none(1, rest.len() as int, ws_at(rest));
                }
                assert(rest.subrange(0, j - i) =~= v@.subrange(i as int, j as int));
                assert(rest.subrange(j - i, rest.len() as int) =~= v@.subrange(j as int, n as int));
            }
            let w = string_of_range(&v, i, j);
            let ghost prev = out@;
            out.push(w);
            proof {
                assert(views(out@) =~= views(prev).push(w@));
                assert(views(out@) + split_ws(v@.subrange(j as int, n as int)) =~= views(prev) + (
                seq![w@] + split_ws(v@.subrange(j as int, n as int))));
            }
            i = j;
        }
    }
    proof {
        assert(v@.subrange(n as int, n as int) =~= Seq::<char>::empty());
        assert(views(out@) + Seq::<Seq<char>>::empty() =~= views(out@));
    }
    out
}

/// `parts` joined with `sep`.
pub fn join_strings(parts: &Vec<String>, sep: &String) -> (r: String)
    ensures
        r@ == join(views(parts@), sep@),
{
    let mut out = String::new();
    let mut i: usize = 0;
    while i < parts.len()
        invariant
            i <= parts@.len(),
            out@ == join(views(parts@).take(i as int), sep@),
        decreases parts.len() - i,
    {
        let ghost t = views(parts@).take(i + 1);
        proof {
            assert(t.drop_last() =~= views(parts@).take(i as int));
            assert(t.last() == parts@[i as int]@);
        }
        if i > 0 {
            append_to(&mut out, sep);
        } else {
            assert(views(parts@).take(0) =~= Seq::<Seq<char>>::empty());
        }
        append_to(&mut out, &parts[i]);
        i = i + 1;
    }
    proof {
        assert(views(parts@).take(parts@.len() as int) =~= views(parts@));
    }
    out
}

/// The parts one after another.
pub open spec fn concat(parts: Seq<Seq<char>>) -> Seq<char>
    decreases parts.len(),
{
    if parts.len() == 0 {
        seq![]
    } else {
        concat(parts.drop_last()) + parts.last()
    }
}

/// Concatenating one more part.
pub proof fn lemma_concat_take(parts: Seq<Seq<char>>, i: int)
    requires
        0 <= i < parts.len(),
    ensures
        concat(parts.take(i + 1)) == concat(parts.take(i)) + parts[i],
{
    assert(parts.take(i + 1).drop_last() =~= parts.take(i));
}

/// Concatenating all parts.
pub proof fn lemma_concat_all(parts: Seq<Seq<char>>)
    ensures
        concat(parts.take(parts.len() as int)) == concat(parts),
{
    assert(parts.take(parts.len() as int) =~= parts);
}

/// The concatenation of the first `j` parts begins the concatenation of
/// the first `k` parts, for `j <= k`.
pub proof fn lemma_concat_prefix(parts: Seq<Seq<char>>, j: int, k: int)
    requires
        0 <= j <= k <= parts.len(),
    ensures
        starts_with(concat(parts.take(k)), concat(parts.take(j))),
    decreases k - j,
{
    if j < k {
        lemma_concat_prefix(parts, j, k - 1);
        lemma_concat_take(parts, k - 1);
        let a = concat(parts.take(j));
        let b = concat(parts.take(k - 1));
        assert(b.subrange(0, a.len() as int) == a);
        assert((b + parts[k - 1]).subrange(0, a.len() as int) =~= b.subrange(0, a.len() as int));
    } else {
        assert(concat(parts.take(k)).subrange(0, concat(parts.take(j)).len() as int) =~= concat(parts.take(j)));
    }
}

/// Each part occurs in the concatenation, right after the parts before it.
pub proof fn lemma_concat_contains(parts: Seq<Seq<char>>, i: int)
    requires
        0 <= i < parts.len(),
    ensures
        occurs_at(concat(parts), parts[i], concat(parts.take(i)).len() as int),
        contains_seq(concat(parts), parts[i]),
{
    lemma_concat_prefix(parts, i + 1, parts.len() as int);
    lemma_concat_all(parts);
    lemma_concat_take(parts, i);
    let a = concat(parts.take(i));
    let b = concat(parts.take(i + 1));
    let all = concat(parts);
    assert(all.subrange(0, b.len() as int) == b);
    assert(b == a + parts[i]);
    assert(all.subrange(a.len() as int, a.len() + parts[i].len() as int) =~= b.subrange(a.len() as int, b.len() as int));
    assert(b.subrange(a.len() as int, b.len() as int) =~= parts[i]);
    assert(occurs_at(all, parts[i], a.len() as int));
}

/// A text contains itself.
pub proof fn lemma_contains_self(s: Seq<char>)
    ensures
        contains_seq(s, s),
{
    assert(s.subrange(0, s.len() as int) =~= s);
    assert(occurs_at(s, s, 0));
}

/// What occurs in `b` occurs in `a + b + c`.
pub proof fn lemma_contains_within(a: Seq<char>, b: Seq<char>, c: Seq<char>, pat: Seq<char>)
    requires
        contains_seq(b, pat),
    ensures
        contains_seq(a + b + c, pat),
{
    let i = choose|i: int| occurs_at(b, pat, i);
    let s = a + b + c;
    assert(s.subrange(a.len() + i, a.len() + i + pat.len()) =~= b.subrange(i, i + pat.len()));
    assert(occurs_at(s, pat, a.len() + i));
}

/// Containment is transitive.
pub proof fn lemma_contains_trans(a: Seq<char>, b: Seq<char>, c: Seq<char>)
    requires
        contains_seq(a, b),
        contains_seq(b, c),
    ensures
        contains_seq(a, c),
{
    let i = choose|i: int| occurs_at(a, b, i);
    let j = choose|j: int| occurs_at(b, c, j);
    assert forall|k: int| 0 <= k < c.len() implies #[trigger] a.subrange(i + j, i + j + c.len())[k]
        == c[k] by {
        assert(b.subrange(j, j + c.len())[k] == c[k]);
        assert(a.subrange(i, i + b.len())[j + k] == b[j + k]);
    }
    assert(a.subrange(i + j, i + j + c.len()) =~= c);
    assert(occurs_at(a, c, i + j));
}

/// Each part occurs in the parts joined by a separator.
pub proof fn lemma_join_contains(parts: Seq<Seq<char>>, sep: Seq<char>, j: int)
    requires
        0 <= j < parts.len(),
    ensures
        contains_seq(join(parts, sep), parts[j]),
    decreases parts.len(),
{
    if parts.len() == 1 {
        lemma_contains_self(parts[0]);
    } else {
        let front = join(parts.drop_last(), sep);
        if j == parts.len() - 1 {
            lemma_contains_self(parts[j]);
            lemma_contains_within(front + sep, parts[j], seq![], parts[j]);
            assert(front + sep + parts[j] + seq![] =~= join(parts, sep));
        } else {
            lemma_join_contains(parts.drop_last(), sep, j);
            assert(parts.drop_last()[j] == parts[j]);
            lemma_contains_within(seq![], front, sep + parts.last(), parts[j]);
            assert(seq![] + front + (sep + parts.last()) =~= join(parts, sep));
        }
    }
}

/// `s` with every `c` replaced by `rep`.
pub open spec fn replace_with(s: Seq<char>, c: char, rep: Seq<char>) -> Seq<char>
    decreases s.len(),
{
    if s.len() == 0 {
        seq![]
    } else {
        replace_with(s.drop_last(), c, rep) + if s.last() == c {
            rep
        } else {
            seq![s.last()]
        }
    }
}

/// `s` with every `c` replaced by `rep` (`str::replace`).
pub fn replace_char_with(s: &str, c: char, rep: &str) -> (r: String)
    ensures
        r@ == replace_with(s@, c, rep@),
{
    let v = chars_of(s);
    let mut out = String::new();
    let mut i: usize = 0;
    while i < v.len()
        invariant
            i <= v@.len(),
            v@ == s@,
            out@ == replace_with(v@.take(i as int), c, rep@),
        decreases v.len() - i,
    {
        proof {
            assert(v@.take(i + 1).drop_last() =~= v@.take(i as int));
        }
        if v[i] == c {
            out.append(rep);
        } else {
            push_char(&mut out, v[i]);
            proof {
                assert(out@ =~= replace_with(v@.take(i as int), c, rep@) + seq![v@[i as int]]);
            }
        }
        i = i + 1;
    }
    proof {
        assert(v@.take(v@.len() as int) =~= v@);
    }
    out
}

/// `s` repeated `n` times.
pub open spec fn repeat(s: Seq<char>, n: nat) -> Seq<char>
    decreases n,
{
    if n == 0 {
        seq![]
    } else {
        repeat(s, (n - 1) as nat) + s
    }
}

/// `s` repeated `n` times (`str::repeat`).
pub fn repeat_str(s: &str, n: usize) -> (r: String)
    ensures
        r@ == repeat(s@, n as nat),
{
    let mut out = String::new();
    let mut i: usize = 0;
    while i < n
        invariant
            i <= n,
            out@ == repeat(s@, i as nat),
        decreases n - i,
    {
        out.append(s);
        i = i + 1;
    }
    out
}

/// The renderings of `items`, one after another.
pub fn concat_each<T, F: Fn(&T) -> String>(
    items: &Vec<T>,
    render: F,
    Ghost(spec): Ghost<spec_fn(T) -> Seq<char>>,
) -> (r: String)
    requires
        forall|x: &T| #[trigger] render.requires((x,)),
        forall|x: &T, s: String| render.ensures((x,), s) ==> s@ == spec(*x),
    ensures
        r@ == concat(items@.map_values(spec)),
{
    let mut out = String::new();
    let mut i: usize = 0;
    while i < items.len()
        invariant
            i <= items@.len(),
            forall|x: &T| #[trigger] render.requires((x,)),
            forall|x: &T, s: String| render.ensures((x,), s) ==> s@ == spec(*x),
            out@ == concat(items@.map_values(spec).take(i as int)),
        decreases items.len() - i,
    {
        let s = render(&items[i]);
        proof {
            lemma_concat_take(items@.map_values(spec), i as int);
        }
        append_to(&mut out, &s);
        i = i + 1;
    }
    proof {
        lemma_concat_all(items@.map_values(spec));
    }
    out
}

/// The renderings of `items`, as a list.
pub fn map_each<T, F: Fn(&T) -> String>(
    items: &Vec<T>,
    render: F,
    Ghost(spec): Ghost<spec_fn(T) -> Seq<char>>,
) -> (r: Vec<String>)
    requires
        forall|x: &T| #[trigger] render.requires((x,)),
        forall|x: &T, s: String| render.ensures((x,), s) ==> s@ == spec(*x),
    ensures
        views(r@) == items@.map_values(spec),
{
    let mut out: Vec<String> = Vec::new();
    let mut i: usize = 0;
    while i < items.len()
        invariant
            i <= items@.len(),
            forall|x: &T| #[trigger] render.requires((x,)),
            forall|x: &T, s: String| render.ensures((x,), s) ==> s@ == spec(*x),
            views(out@) == items@.map_values(spec).take(i as int),
        decreases items.len() - i,
    {
        let s = render(&items[i]);
        let ghost prev = out@;
        out.push(s);
        proof {
            assert(views(out@) =~= views(prev).push(s@));
            assert(views(out@) =~= items@.map_values(spec).take(i + 1));
        }
        i = i + 1;
    }
    proof {
        assert(items@.map_values(spec).take(items@.len() as int) =~= items@.map_values(spec));
    }
    out
}

/// The strings one after another.
pub fn concat_strings(parts: &Vec<String>) -> (r: String)
    ensures
        r@ == concat(views(parts@)),
{
    let mut out = String::new();
    let mut i: usize = 0;
    while i < parts.len()
        invariant
            i <= parts@.len(),
            out@ == concat(views(parts@).take(i as int)),
        decreases parts.len() - i,
    {
        proof {
            lemma_concat_take(views(parts@), i as int);
        }
        append_to(&mut out, &parts[i]);
        i = i + 1;
    }
    proof {
        lemma_concat_all(views(parts@));
    }
    out
}

/// `a` sorts before `b`: lexicographic order by code point, as `str`'s
/// `Ord` compares UTF-8 bytes.
pub open spec fn seq_lt(a: Seq<char>, b: Seq<char>) -> bool
    decreases a.len(),
{
    if a.len() == 0 {
        b.len() > 0
    } else if b.len() == 0 {
        false
    } else if a[0] != b[0] {
        (a[0] as u32) < (b[0] as u32)
    } else {
        seq_lt(a.drop_first(), b.drop_first())
    }
}

/// `seq_lt` is irreflexive and asymmetric, and orders any two distinct
/// sequences one way or the other.
pub proof fn lemma_seq_lt_strict(a: Seq<char>, b: Seq<char>)
    ensures
        !seq_lt(a, a),
        seq_lt(a, b) ==> !seq_lt(b, a),
        a != b ==> seq_lt(a, b) || seq_lt(b, a),
    decreases a.len(),
{
    if a.len() > 0 {
        lemma_seq_lt_strict(a.drop_first(), a.drop_first());
        if b.len() > 0 {
            lemma_seq_lt_strict(a.drop_first(), b.drop_first());
            if a[0] != b[0] {
                vstd::utf8::char_u32_cast(a[0], a[0] as u32);
                vstd::utf8::char_u32_cast(b[0], b[0] as u32);
            }
            if a[0] == b[0] && a != b {
                assert(a.drop_first() != b.drop_first()) by {
                    if a.drop_first() == b.drop_first() {
                        assert(a =~= seq![a[0]] + a.drop_first());
                        assert(b =~= seq![b[0]] + b.drop_first());
                    }
                }
            }
        }
    } else if b.len() == 0 {
        assert(a =~= b);
    }
}

/// `seq_lt` is transitive.
pub proof fn lemma_seq_lt_transitive(a: Seq<char>, b: Seq<char>, c: Seq<char>)
    requires
        seq_lt(a, b),
        seq_lt(b, c),
    ensures
        seq_lt(a, c),
    decreases a.len(),
{
    if a.len() > 0 && b.len() > 0 && c.len() > 0 && a[0] == b[0] && b[0] == c[0] {
        lemma_seq_lt_transitive(a.drop_first(), b.drop_first(), c.drop_first());
    }
}

/// Whether `a` sorts before `b`.
pub fn str_lt(a: &str, b: &str) -> (r: bool)
    ensures
        r == seq_lt(a@, b@),
{
    let x = chars_of(a);
    let y = chars_of(b);
    let mut i: usize = 0;
    assert(x@.subrange(0, x@.len() as int) =~= x@);
    assert(y@.subrange(0, y@.len() as int) =~= y@);
    while i < x.len() && i < y.len() && x[i] == y[i]
        invariant
            i <= x@.len(),
            i <= y@.len(),
            x@ == a@,
            y@ == b@,
            seq_lt(a@, b@) == seq_lt(x@.subrange(i as int, x@.len() as int), y@.subrange(i as int, y@.len() as int)),
        decreases x.len() - i,
    {
        proof {
            assert(x@.subrange(i as int, x@.len() as int).drop_first() =~= x@.subrange(i + 1, x@.len() as int));
            assert(y@.subrange(i as int, y@.len() as int).drop_first() =~= y@.subrange(i + 1, y@.len() as int));
        }
        i = i + 1;
    }
    if i == x.len() {
        i < y.len()
    } else if i == y.len() {
        false
    } else {
        proof {
            assert(x@.subrange(i as int, x@.len() as int)[0] == x@[i as int]);
            assert(y@.subrange(i as int, y@.len() as int)[0] == y@[i as int]);
        }
        (x[i] as u32) < (y[i] as u32)
    }
}

/// Number of trailing whitespace characters of `v[lo..hi]`.
pub(crate) fn trail_ws_len(v: &Vec<char>, lo: usize, hi: usize) -> (r: usize)
    requires
        lo <= hi <= v.len(),
    ensures
        r <= hi - lo,
        r == trail_ws(v@.subrange(lo as int, hi as int)),
{
    let mut k = hi;
    while k > lo && is_ws_exec(v[k - 1])
        invariant
            lo <= k <= hi <= v.len(),
            trail_ws(v@.subrange(lo as int, hi as int)) == (hi - k) + trail_ws(
                v@.subrange(lo as int, k as int),
            ),
        decreases k - lo,
    {
        assert(v@.subrange(lo as int, k - 1) == v@.subrange(lo as int, k as int).drop_last());
        k = k - 1;
    }
    hi - k
}

/// `s` without leading whitespace (`str::trim_start`).
pub fn trim_start_str(s: &str) -> (r: String)
    ensures
        r@ == trim_start(s@),
{
    let v = chars_of(s);
    let a = lead_ws_len(&v, 0);
    proof {
        assert(v@.subrange(0, v@.len() as int) =~= v@);
    }
    string_of_range(&v, a, v.len())
}

/// `s` without leading and trailing whitespace (`str::trim`).
pub fn trim_str(s: &str) -> (r: String)
    ensures
        r@ == trim(s@),
{
    let v = chars_of(s);
    let a = lead_ws_len(&v, 0);
    proof {
        assert(v@.subrange(0, v@.len() as int) =~= v@);
    }
    let b = trail_ws_len(&v, a, v.len());
    let r = string_of_range(&v, a, v.len() - b);
    proof {
        let ts = trim_start(s@);
        assert(ts =~= v@.subrange(a as int, v@.len() as int));
        assert(trim_end(ts) =~= v@.subrange(a as int, v.len() - b));
    }
    r
}

/// `s` without trailing whitespace (`str::trim_end`).
pub fn trim_end_str(s: &str) -> (r: String)
    ensures
        r@ == trim_end(s@),
{
    let v = chars_of(s);
    let b = trail_ws_len(&v, 0, v.len());
    proof {
        assert(v@.subrange(0, v@.len() as int) =~= v@);
    }
    let r = string_of_range(&v, 0, v.len() - b);
    r
}

/// The character at `k` of `s` is `c`.
pub open spec fn char_at_is(s: Seq<char>, c: char) -> spec_fn(int) -> bool {
    |k: int| s[k] == c
}

/// The first position of `c` in `s`, or `s.len()`.
pub open spec fn find_char(s: Seq<char>, c: char) -> int {
    crate::model::first_where(0, s.len() as int, char_at_is(s, c))
}

/// The first position of `c` in `v[from..]`, or the length of `v`.
pub fn find_char_from(v: &Vec<char>, from: usize, c: char) -> (r: usize)
    requires
        from <= v.len(),
    ensures
        from <= r <= v.len(),
        r == from + find_char(v@.subrange(from as int, v@.len() as int), c),
{
    let ghost s = v@.subrange(from as int, v@.len() as int);
    let mut k = from;
    while k < v.len() && v[k] != c
        invariant
            from <= k <= v.len(),
            s == v@.subrange(from as int, v@.len() as int),
            forall|m: int| 0 <= m < k - from ==> !(#[trigger] char_at_is(s, c)(m)),
        decreases v.len() - k,
    {
        k = k + 1;
    }
    proof {
        if k < v.len() {
            crate::model::lemma_first_where_at(0, s.len() as int, char_at_is(s, c), k - from);
        } else {
            crate::model::lemma_first_where_none(0, s.len() as int, char_at_is(s, c));
        }
    }
    k
}

/// The pieces of `s` between occurrences of `c` (`str::split`): one more
/// piece than there are occurrences.
pub open spec fn split_on(s: Seq<char>, c: char) -> Seq<Seq<char>>
    decreases s.len(),
{
    let i = find_char(s, c);
    if i >= s.len() {
        seq![s]
    } else {
        proof {
            crate::model::lemma_first_where_spec(0, s.len() as int, char_at_is(s, c));
        }
        seq![s.subrange(0, i)] + split_on(s.subrange(i + 1, s.len() as int), c)
    }
}

/// The pieces of `s` between occurrences of `c`.
pub fn split_char(s: &str, c: char) -> (r: Vec<String>)
    ensures
        views(r@) == split_on(s@, c),
{
    let v = chars_of(s);
    let n = v.len();
    let mut out: Vec<String> = Vec::new();
    let mut from: usize = 0;
    proof {
        assert(v@.subrange(0, n as int) =~= v@);
        crate::model::lemma_first_where_spec(0, v@.len() as int, char_at_is(v@, c));
    }
    loop
        invariant
            from <= n,
            n == v@.len(),
            v@ == s@,
            split_on(s@, c) == views(out@) + split_on(v@.subrange(from as int, n as int), c),
        decreases n - from,
    {
        let ghost rest = v@.subrange(from as int, n as int);
        let k = find_char_from(&v, from, c);
        let piece = string_of_range(&v, from, k);
        let ghost prev = out@;
        out.push(piece);
        proof {
            assert(views(out@) =~= views(prev).push(piece@));
        }
        if k >= n {
            proof {
                assert(piece@ =~= rest);
                assert(views(out@) =~= views(prev) + split_on(rest, c));
            }
            return out;
        }
        proof {
            crate::model::lemma_first_where_spec(0, rest.len() as int, char_at_is(rest, c));
            assert(rest.subrange(0, k - from) =~= piece@);
            assert(rest.subrange(k - from + 1, rest.len() as int) =~= v@.subrange(k + 1, n as int));
            assert(views(out@) + split_on(v@.subrange(k + 1, n as int), c) =~= views(prev) + split_on(rest, c));
        }
        from = k + 1;
    }
}

/// The lines of `s` (`str::lines`): split after each `\n`, the `\n` and a
/// `\r` before it removed; a final line ending adds no empty line.
pub open spec fn lines_of(s: Seq<char>) -> Seq<Seq<char>>
    decreases s.len(),
{
    if s.len() == 0 {
        seq![]
    } else {
        let i = find_char(s, '\n');
        if i >= s.len() {
            seq![s]
        } else {
            proof {
                crate::model::lemma_first_where_spec(0, s.len() as int, char_at_is(s, '\n'));
            }
            let line = s.subrange(0, i);
            seq![
                if line.len() > 0 && line.last() == '\r' {
                    line.drop_last()
                } else {
                    line
                },
            ] + lines_of(s.subrange(i + 1, s.len() as int))
        }
    }
}

/// The lines of `s`.
pub fn lines(s: &str) -> (r: Vec<String>)
    ensures
        views(r@) == lines_of(s@),
{
    let v = chars_of(s);
    let n = v.len();
    let mut out: Vec<String> = Vec::new();
    let mut from: usize = 0;
    proof {
        assert(v@.subrange(0, n as int) =~= v@);
    }
    while from < n
        invariant
            from <= n,
            n == v@.len(),
            v@ == s@,
            lines_of(s@) == views(out@) + lines_of(v@.subrange(from as int, n as int)),
        decreases n - from,
    {
        let ghost rest = v@.subrange(from as int, n as int);
        let k = find_char_from(&v, from, '\n');
        let end = if k < n && k > from && v[k - 1] == '\r' {
            k - 1
        } else {
            k
        };
        let piece = string_of_range(&v, from, end);
        let ghost prev = out@;
        out.push(piece);
        proof {
            assert(views(out@) =~= views(prev).push(piece@));
            crate::model::lemma_first_where_spec(0, rest.len() as int, char_at_is(rest, '\n'));
        }
        if k >= n {
            proof {
                assert(piece@ =~= rest);
                assert(lines_of(v@.subrange(n as int, n as int)) =~= Seq::<Seq<char>>::empty());
                assert(views(out@) =~= views(prev) + lines_of(rest));
            }
            from = n;
        } else {
            proof {
                let line = rest.subrange(0, k - from);
                if line.len() > 0 && line.last() == '\r' {
                    assert(line.drop_last() =~= piece@);
                } else {
                    assert(line =~= piece@);
                }
                assert(rest.subrange(k - from + 1, rest.len() as int) =~= v@.subrange(k + 1, n as int));
                assert(views(out@) + lines_of(v@.subrange(k + 1, n as int)) =~= views(prev) + lines_of(rest));
            }
            from = k + 1;
        }
    }
    proof {
        assert(lines_of(v@.subrange(n as int, n as int)) =~= Seq::<Seq<char>>::empty());
        assert(views(out@) + Seq::<Seq<char>>::empty() =~= views(out@));
    }
    out
}


/// `s` with the prefix `p` removed, when it begins with `p` (`str::strip_prefix`).
pub open spec fn strip_prefix(s: Seq<char>, p: Seq<char>) -> Option<Seq<char>> {
    if starts_with(s, p) {
        Some(s.skip(p.len() as int))
    } else {
        None
    }
}

/// `s` with the prefix `p` removed, when it begins with `p`.
pub fn strip_prefix_str(s: &str, p: &str) -> (r: Option<String>)
    ensures
        match r {
            Some(t) => strip_prefix(s@, p@) == Some(t@),
            None => strip_prefix(s@, p@) is None,
        },
{
    let v = chars_of(s);
    let q = chars_of(p);
    if matches_at(&v, 0, &q) {
        Some(string_of_range(&v, q.len(), v.len()))
    } else {
        None
    }
}

/// Whether two strings hold the same characters.
pub fn str_eq(a: &str, b: &str) -> (r: bool)
    ensures
        r == (a@ == b@),
{
    chars_eq(&chars_of(a), &chars_of(b))
}

} // verus!
