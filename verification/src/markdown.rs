//! Commands described by Markdown files with a frontmatter block.
//!
//! A file holds a `---` … `---` frontmatter block (a small YAML subset) and a
//! Markdown body. The body's free-text prelude becomes the description; the
//! `## Arguments`, `## Flags` and `## Examples` sections (headings matched
//! ignoring ASCII case) hold one bullet per argument, flag or example. A
//! malformed bullet or frontmatter line yields a warning and is skipped; it
//! never aborts the file.
use vstd::prelude::*;
use crate::flag::{flag_views, opt_view, string_views, Flag, FlagBuilder, FlagView};
use crate::model::{
    argument_views, build_error_text, Argument, ArgumentBuilder, ArgumentView, BuildError,
    BuildErrorView, Command, CommandBuilder, Example,
};
use crate::source::{DiagnosticView, Layer, LoadDiagnostic, LoadedCommand, OriginView, SourceOrigin};
use crate::text::{
    all_ws, chars_of, debug_string, debug_text, find_char, find_char_from, is_ws, is_ws_exec,
    lead_ws, split_char, split_on, string_of_range, trail_ws, trim, trim_end, trim_start, views,
};

verus! {

broadcast use vstd::string::group_string_axioms;

// ── Grammar of one bullet ───────────────────────────────────────────────────

/// The content of a `- ` or `* ` bullet line, trimmed; `None` for a blank
/// line, a line that is no bullet, or a bullet with nothing after it.
pub open spec fn bullet_content(line: Seq<char>) -> Option<Seq<char>> {
    let t = trim_start(line);
    if t.len() >= 2 && (t[0] == '-' || t[0] == '*') && t[1] == ' ' {
        let r = trim(t.skip(2));
        if r.len() == 0 {
            None
        } else {
            Some(r)
        }
    } else {
        None
    }
}

/// A backtick-delimited token at the start of `s` (after whitespace) and the
/// remainder after it, without its leading whitespace.
pub open spec fn backtick_token(s: Seq<char>) -> Option<(Seq<char>, Seq<char>)> {
    let t = trim_start(s);
    if t.len() > 0 && t[0] == '`' {
        let a = t.skip(1);
        let c = find_char(a, '`');
        if c < a.len() {
            Some((a.take(c), trim_start(a.skip(c + 1))))
        } else {
            None
        }
    } else {
        None
    }
}

/// The trimmed pieces that are not empty.
pub open spec fn nonblank_trimmed(parts: Seq<Seq<char>>) -> Seq<Seq<char>>
    decreases parts.len(),
{
    if parts.len() == 0 {
        seq![]
    } else {
        let rest = nonblank_trimmed(parts.drop_last());
        let t = trim(parts.last());
        if t.len() == 0 {
            rest
        } else {
            rest.push(t)
        }
    }
}

/// What a `(modifier, ...)` list at the start of a text holds.
pub enum Modifiers {
    /// No leading `(`: the whole text, without leading whitespace, remains.
    Absent(Seq<char>),
    /// The comma-separated modifiers, trimmed and non-empty, and what follows
    /// the `)` without its leading whitespace.
    Parsed(Seq<Seq<char>>, Seq<char>),
    /// A `(` with no `)`: the text after the `(`.
    Unterminated(Seq<char>),
}

/// The modifier list at the start of `s`.
pub open spec fn modifiers(s: Seq<char>) -> Modifiers {
    let t = trim_start(s);
    if t.len() > 0 && t[0] == '(' {
        let a = t.skip(1);
        let c = find_char(a, ')');
        if c < a.len() {
            Modifiers::Parsed(nonblank_trimmed(split_on(a.take(c), ',')), trim_start(a.skip(c + 1)))
        } else {
            Modifiers::Unterminated(a)
        }
    } else {
        Modifiers::Absent(t)
    }
}

/// `s` without one leading `:`.
pub open spec fn after_colon(s: Seq<char>) -> Seq<char> {
    if s.len() > 0 && s[0] == ':' {
        s.skip(1)
    } else {
        s
    }
}

// ── Index arithmetic on character vectors ───────────────────────────────────

/// Start of `v[lo..hi]` after its leading whitespace.
fn skip_ws(v: &Vec<char>, lo: usize, hi: usize) -> (r: usize)
    requires
        lo <= hi <= v.len(),
    ensures
        lo <= r <= hi,
        v@.subrange(r as int, hi as int) == trim_start(v@.subrange(lo as int, hi as int)),
{
    let ghost s = v@.subrange(lo as int, hi as int);
    let mut k = lo;
    while k < hi && is_ws_exec(v[k])
        invariant
            lo <= k <= hi <= v.len(),
            s == v@.subrange(lo as int, hi as int),
            lead_ws(s) == (k - lo) + lead_ws(v@.subrange(k as int, hi as int)),
        decreases hi - k,
    {
        assert(v@.subrange(k + 1, hi as int) =~= v@.subrange(k as int, hi as int).drop_first());
        k = k + 1;
    }
    proof {
        if k < hi {
            assert(v@.subrange(k as int, hi as int)[0] == v@[k as int]);
        }
        assert(s.subrange(k - lo, s.len() as int) =~= v@.subrange(k as int, hi as int));
    }
    k
}

/// End of `v[lo..hi]` before its trailing whitespace.
fn drop_ws(v: &Vec<char>, lo: usize, hi: usize) -> (r: usize)
    requires
        lo <= hi <= v.len(),
    ensures
        lo <= r <= hi,
        v@.subrange(lo as int, r as int) == trim_end(v@.subrange(lo as int, hi as int)),
{
    let t = crate::text::trail_ws_len(v, lo, hi);
    proof {
        assert(v@.subrange(lo as int, hi as int).subrange(0, (hi - lo) - t) =~= v@.subrange(
            lo as int,
            hi - t,
        ));
    }
    hi - t
}

/// Bounds of `v[lo..hi]` trimmed.
fn trim_bounds(v: &Vec<char>, lo: usize, hi: usize) -> (r: (usize, usize))
    requires
        lo <= hi <= v.len(),
    ensures
        lo <= r.0 <= r.1 <= hi,
        v@.subrange(r.0 as int, r.1 as int) == trim(v@.subrange(lo as int, hi as int)),
{
    let a = skip_ws(v, lo, hi);
    let b = drop_ws(v, a, hi);
    (a, b)
}

/// First position of `c` in `v[lo..hi]`, or `hi`.
fn find_in(v: &Vec<char>, lo: usize, hi: usize, c: char) -> (r: usize)
    requires
        lo <= hi <= v.len(),
    ensures
        lo <= r <= hi,
        r - lo == find_char(v@.subrange(lo as int, hi as int), c),
{
    let ghost s = v@.subrange(lo as int, hi as int);
    let mut k = lo;
    while k < hi && v[k] != c
        invariant
            lo <= k <= hi <= v.len(),
            s == v@.subrange(lo as int, hi as int),
            forall|m: int| 0 <= m < k - lo ==> !(#[trigger] crate::text::char_at_is(s, c)(m)),
        decreases hi - k,
    {
        k = k + 1;
    }
    proof {
        if k < hi {
            crate::model::lemma_first_where_at(
                0,
                s.len() as int,
                crate::text::char_at_is(s, c),
                k - lo,
            );
        } else {
            crate::model::lemma_first_where_none(0, s.len() as int, crate::text::char_at_is(s, c));
        }
    }
    k
}

/// The characters of `v[lo..hi]` as a string.
fn text_of(v: &Vec<char>, lo: usize, hi: usize) -> (r: String)
    requires
        lo <= hi <= v.len(),
    ensures
        r@ == v@.subrange(lo as int, hi as int),
{
    string_of_range(v, lo, hi)
}

// ── Executable bullet grammar ───────────────────────────────────────────────

/// Bounds of the content of the bullet line `v`.
fn bullet_bounds(v: &Vec<char>) -> (r: Option<(usize, usize)>)
    ensures
        match r {
            Some((a, b)) => a <= b <= v.len() && bullet_content(v@) == Some(
                v@.subrange(a as int, b as int),
            ),
            None => bullet_content(v@) is None,
        },
{
    let n = v.len();
    let a = skip_ws(v, 0, n);
    proof {
        assert(v@.subrange(0, n as int) =~= v@);
    }
    let ghost t = trim_start(v@);
    if n - a >= 2 && (v[a] == '-' || v[a] == '*') && v[a + 1] == ' ' {
        proof {
            assert(t[0] == v@[a as int] && t[1] == v@[a + 1]);
            assert(t.skip(2) =~= v@.subrange(a + 2, n as int));
        }
        let (s, e) = trim_bounds(v, a + 2, n);
        if s == e {
            None
        } else {
            Some((s, e))
        }
    } else {
        proof {
            if t.len() >= 2 {
                assert(t[0] == v@[a as int] && t[1] == v@[a + 1]);
            }
        }
        None
    }
}

/// Bounds of the backtick token at the start of `v[lo..hi]` and the start of
/// the remainder, which runs to `hi`.
fn backtick_bounds(v: &Vec<char>, lo: usize, hi: usize) -> (r: Option<(usize, usize, usize)>)
    requires
        lo <= hi <= v.len(),
    ensures
        match r {
            Some((a, b, c)) => lo <= a <= b <= c <= hi && backtick_token(
                v@.subrange(lo as int, hi as int),
            ) == Some((v@.subrange(a as int, b as int), v@.subrange(c as int, hi as int))),
            None => backtick_token(v@.subrange(lo as int, hi as int)) is None,
        },
{
    let ghost s = v@.subrange(lo as int, hi as int);
    let p = skip_ws(v, lo, hi);
    let ghost t = trim_start(s);
    if p < hi && v[p] == '`' {
        proof {
            assert(t[0] == v@[p as int]);
            assert(t.skip(1) =~= v@.subrange(p + 1, hi as int));
        }
        let c = find_in(v, p + 1, hi, '`');
        if c < hi {
            let q = skip_ws(v, c + 1, hi);
            proof {
                let a = t.skip(1);
                assert(a.take(c - (p + 1)) =~= v@.subrange(p + 1, c as int));
                assert(a.skip(c - (p + 1) + 1) =~= v@.subrange(c + 1, hi as int));
            }
            Some((p + 1, c, q))
        } else {
            None
        }
    } else {
        proof {
            if t.len() > 0 {
                assert(t[0] == v@[p as int]);
            }
        }
        None
    }
}

/// Executable form of [`Modifiers`]: positions into the line's characters.
enum ModifierParse {
    Absent(usize),
    Parsed(Vec<String>, usize),
    Unterminated(usize),
}

/// The trimmed, non-empty pieces of `parts`.
pub(crate) fn keep_nonblank(parts: &Vec<String>) -> (r: Vec<String>)
    ensures
        views(r@) == nonblank_trimmed(views(parts@)),
{
    let mut out: Vec<String> = Vec::new();
    let mut i: usize = 0;
    while i < parts.len()
        invariant
            i <= parts.len(),
            views(out@) == nonblank_trimmed(views(parts@).take(i as int)),
        decreases parts.len() - i,
    {
        let t = crate::text::trim_str(parts[i].as_str());
        let ghost before = out@;
        proof {
            assert(views(parts@).take(i + 1).drop_last() =~= views(parts@).take(i as int));
            assert(views(parts@).take(i + 1).last() == parts@[i as int]@);
        }
        if chars_of(t.as_str()).len() > 0 {
            out.push(t);
            proof {
                assert(views(out@) =~= views(before).push(t@));
            }
        }
        i = i + 1;
    }
    proof {
        assert(views(parts@).take(parts.len() as int) =~= views(parts@));
    }
    out
}

/// The modifier list at the start of `v[lo..hi]`.
fn modifier_parse(v: &Vec<char>, lo: usize, hi: usize) -> (r: ModifierParse)
    requires
        lo <= hi <= v.len(),
    ensures
        match r {
            ModifierParse::Absent(p) => lo <= p <= hi && modifiers(v@.subrange(lo as int, hi as int))
                == Modifiers::Absent(v@.subrange(p as int, hi as int)),
            ModifierParse::Parsed(m, p) => lo <= p <= hi && modifiers(
                v@.subrange(lo as int, hi as int),
            ) == Modifiers::Parsed(views(m@), v@.subrange(p as int, hi as int)),
            ModifierParse::Unterminated(p) => lo <= p <= hi && modifiers(
                v@.subrange(lo as int, hi as int),
            ) == Modifiers::Unterminated(v@.subrange(p as int, hi as int)),
        },
{
    let ghost s = v@.subrange(lo as int, hi as int);
    let p = skip_ws(v, lo, hi);
    let ghost t = trim_start(s);
    if p < hi && v[p] == '(' {
        proof {
            assert(t[0] == v@[p as int]);
            assert(t.skip(1) =~= v@.subrange(p + 1, hi as int));
        }
        let c = find_in(v, p + 1, hi, ')');
        if c < hi {
            let inside = text_of(v, p + 1, c);
            let parts = split_char(inside.as_str(), ',');
            let mods = keep_nonblank(&parts);
            let q = skip_ws(v, c + 1, hi);
            proof {
                let a = t.skip(1);
                assert(a.take(c - (p + 1)) =~= v@.subrange(p + 1, c as int));
                assert(a.skip(c - (p + 1) + 1) =~= v@.subrange(c + 1, hi as int));
            }
            ModifierParse::Parsed(mods, q)
        } else {
            ModifierParse::Unterminated(p + 1)
        }
    } else {
        proof {
            if t.len() > 0 {
                assert(t[0] == v@[p as int]);
            }
        }
        ModifierParse::Absent(p)
    }
}

/// Bounds of the trimmed description that follows the modifiers: the text
/// from `p` to `hi` without one leading `:`.
fn description_bounds(v: &Vec<char>, p: usize, hi: usize) -> (r: (usize, usize))
    requires
        p <= hi <= v.len(),
    ensures
        p <= r.0 <= r.1 <= hi,
        v@.subrange(r.0 as int, r.1 as int) == trim(after_colon(v@.subrange(p as int, hi as int))),
{
    let q = if p < hi && v[p] == ':' {
        p + 1
    } else {
        p
    };
    proof {
        let s = v@.subrange(p as int, hi as int);
        if p < hi && v@[p as int] == ':' {
            assert(s[0] == v@[p as int]);
            assert(after_colon(s) =~= v@.subrange(q as int, hi as int));
        } else {
            if s.len() > 0 {
                assert(s[0] == v@[p as int]);
            }
            assert(after_colon(s) =~= v@.subrange(q as int, hi as int));
        }
    }
    trim_bounds(v, q, hi)
}

/// `a`, then `x`, then `b`.
fn cat3(a: &str, x: &str, b: &str) -> (r: String)
    ensures
        r@ == a@ + x@ + b@,
{
    let mut r = String::from_str(a);
    r.append(x);
    r.append(b);
    r
}

/// `a`, then `x`.
fn cat2(a: &str, x: &str) -> (r: String)
    ensures
        r@ == a@ + x@,
{
    let mut r = String::from_str(a);
    r.append(x);
    r
}

/// `a`, `x`, `b`, then `y`.
fn cat4(a: &str, x: &str, b: &str, y: &str) -> (r: String)
    ensures
        r@ == a@ + x@ + b@ + y@,
{
    let mut r = String::from_str(a);
    r.append(x);
    r.append(b);
    r.append(y);
    r
}

/// `a`, `x`, `b`, `y`, then `c`.
fn cat5(a: &str, x: &str, b: &str, y: &str, c: &str) -> (r: String)
    ensures
        r@ == a@ + x@ + b@ + y@ + c@,
{
    let mut r = String::from_str(a);
    r.append(x);
    r.append(b);
    r.append(y);
    r.append(c);
    r
}

// ── `## Arguments` ──────────────────────────────────────────────────────────

/// The argument after applying `mods` in order (`default: v`, `required`,
/// `variadic`, `optional`), with a warning for each unknown modifier.
pub open spec fn arg_modifiers(d: ArgumentView, name: Seq<char>, mods: Seq<Seq<char>>) -> (
    ArgumentView,
    Seq<Seq<char>>,
)
    decreases mods.len(),
{
    if mods.len() == 0 {
        (d, seq![])
    } else {
        let prev = arg_modifiers(d, name, mods.drop_last());
        let d0 = prev.0;
        let w0 = prev.1;
        let m = mods.last();
        match crate::text::strip_prefix(m, "default:"@) {
            Some(v) => (ArgumentView { default: Some(trim(v)), ..d0 }, w0),
            None => if m == "required"@ {
                (ArgumentView { required: true, ..d0 }, w0)
            } else if m == "variadic"@ {
                (ArgumentView { variadic: true, ..d0 }, w0)
            } else if m == "optional"@ {
                (d0, w0)
            } else {
                (d0, w0.push("unknown argument modifier '"@ + m + "' on `"@ + name + "`"@))
            },
        }
    }
}

/// What one line of an `## Arguments` section yields: the argument of a
/// well-formed bullet `` `name` (modifiers): description ``, and warnings.
pub open spec fn argument_bullet(raw: Seq<char>) -> (Option<ArgumentView>, Seq<Seq<char>>) {
    match bullet_content(raw) {
        None => (None, seq![]),
        Some(content) => match backtick_token(content) {
            None => (None, seq!["expected `name` in backticks, got "@ + debug_text(raw)]),
            Some(tok) => {
                let name = tok.0;
                if name.len() == 0 {
                    (None, seq!["empty argument name in "@ + debug_text(raw)])
                } else {
                    let m = modifiers(tok.1);
                    let mods = match m {
                        Modifiers::Parsed(l, _) => l,
                        _ => seq![],
                    };
                    let after = match m {
                        Modifiers::Absent(r) => r,
                        Modifiers::Parsed(_, r) => r,
                        Modifiers::Unterminated(_) => seq![],
                    };
                    let w0 = match m {
                        Modifiers::Unterminated(u) => seq![
                            "argument `"@ + name
                                + "` has unterminated `(` in modifier list — modifiers ignored: "@
                                + debug_text(u),
                        ],
                        _ => seq![],
                    };
                    let d0 = ArgumentView {
                        name,
                        description: trim(after_colon(after)),
                        required: false,
                        variadic: false,
                        default: None,
                    };
                    let applied = arg_modifiers(d0, name, mods);
                    if all_ws(name) {
                        (
                            None,
                            w0 + applied.1.push(
                                "argument `"@ + name + "` build failed: "@ + build_error_text(
                                    BuildErrorView::EmptyCanonical,
                                ),
                            ),
                        )
                    } else {
                        (Some(applied.0), w0 + applied.1)
                    }
                }
            },
        },
    }
}

/// The arguments and warnings of an `## Arguments` section, line by line.
pub open spec fn arguments_section(lines: Seq<Seq<char>>) -> (Seq<ArgumentView>, Seq<Seq<char>>)
    decreases lines.len(),
{
    if lines.len() == 0 {
        (seq![], seq![])
    } else {
        let prev = arguments_section(lines.drop_last());
        let cur = argument_bullet(lines.last());
        (
            match cur.0 {
                Some(a) => prev.0.push(a),
                None => prev.0,
            },
            prev.1 + cur.1,
        )
    }
}

/// Apply argument modifiers to a builder.
fn apply_arg_modifiers(
    b: ArgumentBuilder,
    name: &String,
    mods: &Vec<String>,
    warnings: &mut Vec<String>,
) -> (r: ArgumentBuilder)
    ensures
        r@ == arg_modifiers(b@, name@, views(mods@)).0,
        views(final(warnings)@) == views(old(warnings)@) + arg_modifiers(
            b@,
            name@,
            views(mods@),
        ).1,
        r@.name == b@.name,
{
    let ghost b0 = b@;
    let ghost w0 = views(warnings@);
    let mut b = b;
    let mut i: usize = 0;
    while i < mods.len()
        invariant
            i <= mods.len(),
            b@ == arg_modifiers(b0, name@, views(mods@).take(i as int)).0,
            views(warnings@) == w0 + arg_modifiers(b0, name@, views(mods@).take(i as int)).1,
            b0.name == b.name@,
        decreases mods.len() - i,
    {
        let m = &mods[i];
        let ghost wb = warnings@;
        proof {
            assert(views(mods@).take(i + 1).drop_last() =~= views(mods@).take(i as int));
            assert(views(mods@).take(i + 1).last() == m@);
        }
        match crate::text::strip_prefix_str(m.as_str(), "default:") {
            Some(v) => {
                let t = crate::text::trim_str(v.as_str());
                b = b.default_value(t.as_str());
            },
            None => {
                if crate::text::str_eq(m.as_str(), "required") {
                    b = b.required();
                } else if crate::text::str_eq(m.as_str(), "variadic") {
                    b = b.variadic();
                } else if crate::text::str_eq(m.as_str(), "optional") {
                } else {
                    warnings.push(
                        cat5("unknown argument modifier '", m.as_str(), "' on `", name.as_str(), "`"),
                    );
                    proof {
                        assert(views(warnings@) =~= views(wb).push(warnings@.last()@));
                    }
                }
            },
        }
        i = i + 1;
    }
    proof {
        assert(views(mods@).take(mods.len() as int) =~= views(mods@));
    }
    b
}

/// One line of an `## Arguments` section.
fn argument_bullet_exec(raw: &String) -> (r: (Option<Argument>, Vec<String>))
    ensures
        match r.0 {
            Some(a) => argument_bullet(raw@).0 == Some(a@),
            None => argument_bullet(raw@).0 is None,
        },
        views(r.1@) == argument_bullet(raw@).1,
{
    let v = chars_of(raw.as_str());
    let mut w: Vec<String> = Vec::new();
    let (s, e) = match bullet_bounds(&v) {
        None => {
            return (None, w);
        },
        Some(p) => p,
    };
    let (a, b, c) = match backtick_bounds(&v, s, e) {
        None => {
            w.push(cat2("expected `name` in backticks, got ", debug_string(raw.as_str()).as_str()));
            proof {
                assert(views(w@) =~= argument_bullet(raw@).1);
            }
            return (None, w);
        },
        Some(t) => t,
    };
    if a == b {
        w.push(cat2("empty argument name in ", debug_string(raw.as_str()).as_str()));
        proof {
            assert(views(w@) =~= argument_bullet(raw@).1);
        }
        return (None, w);
    }
    let name = text_of(&v, a, b);
    let (mods, after) = match modifier_parse(&v, c, e) {
        ModifierParse::Absent(p) => (Vec::new(), Some(p)),
        ModifierParse::Parsed(m, p) => (m, Some(p)),
        ModifierParse::Unterminated(p) => {
            let u = text_of(&v, p, e);
            w.push(
                cat4(
                    "argument `",
                    name.as_str(),
                    "` has unterminated `(` in modifier list — modifiers ignored: ",
                    debug_string(u.as_str()).as_str(),
                ),
            );
            (Vec::new(), None)
        },
    };
    let desc = match after {
        Some(p) => {
            let (x, y) = description_bounds(&v, p, e);
            text_of(&v, x, y)
        },
        None => String::new(),
    };
    let mut builder = Argument::builder(name.as_str());
    if chars_of(desc.as_str()).len() > 0 {
        builder = builder.description(desc.as_str());
    }
    assert(builder@.description =~= desc@);
    let ghost w0 = views(w@);
    proof {
        let m = modifiers(v@.subrange(c as int, e as int));
        let aft = match m {
            Modifiers::Absent(r) => r,
            Modifiers::Parsed(_, r) => r,
            Modifiers::Unterminated(_) => seq![],
        };
        assert(trim(after_colon(Seq::<char>::empty())) =~= Seq::<char>::empty());
        assert(desc@ == trim(after_colon(aft)));
        assert(builder@ == (ArgumentView {
            name: name@,
            description: trim(after_colon(aft)),
            required: false,
            variadic: false,
            default: None,
        }));
    }
    let builder = apply_arg_modifiers(builder, &name, &mods, &mut w);
    proof {
        assert(views(mods@) =~= match modifiers(v@.subrange(c as int, e as int)) {
            Modifiers::Parsed(l, _) => l,
            _ => seq![],
        });
    }
    match builder.build() {
        Ok(arg) => {
            proof {
                assert(views(w@) =~= argument_bullet(raw@).1);
            }
            (Some(arg), w)
        },
        Err(err) => {
            let ghost wb = w@;
            w.push(cat4("argument `", name.as_str(), "` build failed: ", err.message().as_str()));
            proof {
                assert(views(w@) =~= views(wb).push(w@.last()@));
                assert(views(w@) =~= argument_bullet(raw@).1);
            }
            (None, w)
        },
    }
}

// ── Warnings ────────────────────────────────────────────────────────────────

/// Schema warnings about `field`, one per message, all from `origin`.
pub open spec fn warning_views(o: OriginView, field: Seq<char>, msgs: Seq<Seq<char>>) -> Seq<
    DiagnosticView,
> {
    msgs.map_values(|m: Seq<char>| DiagnosticView::SchemaWarning(o, field, m))
}

/// Append one schema warning per message.
fn push_warnings(
    diags: &mut Vec<LoadDiagnostic>,
    origin: &SourceOrigin,
    field: &str,
    msgs: Vec<String>,
)
    ensures
        crate::source::diagnostic_views(final(diags)@) == crate::source::diagnostic_views(
            old(diags)@,
        ) + warning_views(origin@, field@, views(msgs@)),
{
    let ghost d0 = crate::source::diagnostic_views(diags@);
    let mut i: usize = 0;
    while i < msgs.len()
        invariant
            i <= msgs.len(),
            crate::source::diagnostic_views(diags@) == d0 + warning_views(
                origin@,
                field@,
                views(msgs@).take(i as int),
            ),
        decreases msgs.len() - i,
    {
        let ghost before = diags@;
        diags.push(
            LoadDiagnostic::SchemaWarning {
                origin: origin.copy(),
                field: String::from_str(field),
                message: msgs[i].clone(),
            },
        );
        proof {
            assert(crate::source::diagnostic_views(diags@) =~= crate::source::diagnostic_views(
                before,
            ).push(diags@.last()@));
            assert(warning_views(origin@, field@, views(msgs@).take(i + 1)) =~= warning_views(
                origin@,
                field@,
                views(msgs@).take(i as int),
            ).push(diags@.last()@));
        }
        i = i + 1;
    }
    proof {
        assert(views(msgs@).take(msgs.len() as int) =~= views(msgs@));
    }
}

/// Append the messages of `more` to `msgs`.
fn extend_strings(msgs: &mut Vec<String>, more: Vec<String>)
    ensures
        views(final(msgs)@) == views(old(msgs)@) + views(more@),
{
    let ghost m0 = views(msgs@);
    let mut i: usize = 0;
    while i < more.len()
        invariant
            i <= more.len(),
            views(msgs@) == m0 + views(more@).take(i as int),
        decreases more.len() - i,
    {
        let ghost before = msgs@;
        msgs.push(more[i].clone());
        proof {
            assert(views(msgs@) =~= views(before).push(more@[i as int]@));
            assert(views(more@).take(i + 1) =~= views(more@).take(i as int).push(more@[i as int]@));
        }
        i = i + 1;
    }
    proof {
        assert(views(more@).take(more.len() as int) =~= views(more@));
    }
}

/// Parse the lines of an `## Arguments` section; warnings go to `msgs`.
fn parse_arguments_section(lines: &Vec<String>, msgs: &mut Vec<String>) -> (r: Vec<Argument>)
    ensures
        argument_views(r@) == arguments_section(views(lines@)).0,
        views(final(msgs)@) == views(old(msgs)@) + arguments_section(views(lines@)).1,
{
    let ghost m0 = views(msgs@);
    let mut out: Vec<Argument> = Vec::new();
    let mut i: usize = 0;
    while i < lines.len()
        invariant
            i <= lines.len(),
            argument_views(out@) == arguments_section(views(lines@).take(i as int)).0,
            views(msgs@) == m0 + arguments_section(views(lines@).take(i as int)).1,
        decreases lines.len() - i,
    {
        let (a, w) = argument_bullet_exec(&lines[i]);
        proof {
            assert(views(lines@).take(i + 1).drop_last() =~= views(lines@).take(i as int));
            assert(views(lines@).take(i + 1).last() == lines@[i as int]@);
        }
        let ghost before = out@;
        match a {
            Some(arg) => {
                out.push(arg);
                proof {
                    assert(argument_views(out@) =~= argument_views(before).push(out@.last()@));
                }
            },
            None => {},
        }
        extend_strings(msgs, w);
        proof {
            let p = arguments_section(views(lines@).take(i as int));
            let c = argument_bullet(lines@[i as int]@);
            assert(m0 + p.1 + c.1 =~= m0 + (p.1 + c.1));
        }
        i = i + 1;
    }
    proof {
        assert(views(lines@).take(lines.len() as int) =~= views(lines@));
    }
    out
}

// ── `## Flags` ──────────────────────────────────────────────────────────────

/// The part at `i` begins with `--`.
pub open spec fn is_long_part(parts: Seq<Seq<char>>) -> spec_fn(int) -> bool {
    |i: int| parts[i].len() >= 2 && parts[i][0] == '-' && parts[i][1] == '-'
}

/// The short form among the comma-separated parts of a flag token: the
/// first `-x` part with exactly one character after a single `-`; every
/// `-xy...` part met before it yields a warning.
pub open spec fn short_scan(parts: Seq<Seq<char>>, token: Seq<char>) -> (
    Option<char>,
    Seq<Seq<char>>,
)
    decreases parts.len(),
{
    if parts.len() == 0 {
        (None, seq![])
    } else {
        let p = parts[0];
        let rest = short_scan(parts.drop_first(), token);
        if !(p.len() > 0 && p[0] == '-') || (p.len() > 1 && p[1] == '-') {
            rest
        } else if p.len() == 2 {
            (Some(p[1]), seq![])
        } else {
            (
                rest.0,
                seq![
                    "flag `"@ + token + "` short alias `"@ + p
                        + "` must be a single character — short ignored"@,
                ] + rest.1,
            )
        }
    }
}

/// The character at `k` of `s` is `(` or `:`.
pub open spec fn paren_or_colon(s: Seq<char>) -> spec_fn(int) -> bool {
    |k: int| s[k] == '(' || s[k] == ':'
}

/// Where an unterminated `<VALUE` placeholder stops: at the first `(` or
/// `:`, else at the first whitespace, else at the end.
pub open spec fn value_stop(r: Seq<char>) -> int {
    let i = crate::model::first_where(0, r.len() as int, paren_or_colon(r));
    if i < r.len() {
        i
    } else {
        crate::model::first_where(0, r.len() as int, crate::text::ws_at(r))
    }
}

/// A `<VALUE>` placeholder at the start of `rest`: whether the flag takes a
/// value, what follows the placeholder (without leading whitespace), and
/// whether the placeholder was unterminated.
pub open spec fn value_placeholder(rest: Seq<char>) -> (bool, Seq<char>, bool) {
    if rest.len() > 0 && rest[0] == '<' {
        let r = rest.skip(1);
        let c = find_char(r, '>');
        if c < r.len() {
            (true, trim_start(r.skip(c + 1)), false)
        } else {
            (true, trim_start(r.skip(value_stop(r))), true)
        }
    } else {
        (false, rest, false)
    }
}

/// Some piece is empty once trimmed.
pub open spec fn some_blank(parts: Seq<Seq<char>>) -> bool {
    exists|k: int| 0 <= k < parts.len() && trim(#[trigger] parts[k]).len() == 0
}

/// The flag after applying `mods` in order (`default: v`, `env: VAR`,
/// `choices: a|b`, `required`, `repeatable`), with the warnings they yield.
pub open spec fn flag_modifiers(d: FlagView, token: Seq<char>, mods: Seq<Seq<char>>) -> (
    FlagView,
    Seq<Seq<char>>,
)
    decreases mods.len(),
{
    if mods.len() == 0 {
        (d, seq![])
    } else {
        let prev = flag_modifiers(d, token, mods.drop_last());
        let d0 = prev.0;
        let w0 = prev.1;
        let m = mods.last();
        match crate::text::strip_prefix(m, "default:"@) {
            Some(v) => (FlagView { default: Some(trim(v)), ..d0 }, w0),
            None => match crate::text::strip_prefix(m, "env:"@) {
                Some(v) => (FlagView { env: Some(trim(v)), ..d0 }, w0),
                None => match crate::text::strip_prefix(m, "choices:"@) {
                    Some(v) => {
                        let parts = split_on(v, '|');
                        let kept = nonblank_trimmed(parts);
                        let w1 = if some_blank(parts) {
                            w0.push(
                                "flag `"@ + token
                                    + "` choices list contained empty entries (dropped) — check for stray '|'"@,
                            )
                        } else {
                            w0
                        };
                        if kept.len() == 0 {
                            (
                                d0,
                                w1.push(
                                    "flag `"@ + token
                                        + "` has empty `choices:` modifier — choices ignored"@,
                                ),
                            )
                        } else {
                            (FlagView { choices: Some(kept), ..d0 }, w1)
                        }
                    },
                    None => if m == "required"@ {
                        (FlagView { required: true, ..d0 }, w0)
                    } else if m == "repeatable"@ {
                        (FlagView { repeatable: true, ..d0 }, w0)
                    } else {
                        (d0, w0.push("unknown flag modifier '"@ + m + "' on `"@ + token + "`"@))
                    },
                },
            },
        }
    }
}

/// What one line of a `## Flags` section yields: the flag of a well-formed
/// bullet `` `--long, -s` <VALUE> (modifiers): description ``, and warnings.
pub open spec fn flag_bullet(raw: Seq<char>) -> (Option<FlagView>, Seq<Seq<char>>) {
    match bullet_content(raw) {
        None => (None, seq![]),
        Some(content) => match backtick_token(content) {
            None => (None, seq!["expected `--flag` in backticks, got "@ + debug_text(raw)]),
            Some(tok) => {
                let token = tok.0;
                let parts = split_on(token, ',').map_values(|p: Seq<char>| trim(p));
                let li = crate::model::first_where(0, parts.len() as int, is_long_part(parts));
                if li >= parts.len() {
                    (None, seq!["flag `"@ + token + "` missing --long form"@])
                } else {
                    let long = parts[li].skip(2);
                    let sc = short_scan(parts, token);
                    let vp = value_placeholder(tok.1);
                    let wv = if vp.2 {
                        seq![
                            "flag `"@ + token
                                + "` has unterminated `<VALUE>` — assuming takes_value=true and skipping to next modifier or description"@,
                        ]
                    } else {
                        seq![]
                    };
                    let m = modifiers(vp.1);
                    let mods = match m {
                        Modifiers::Parsed(l, _) => l,
                        _ => seq![],
                    };
                    let after = match m {
                        Modifiers::Absent(r) => r,
                        Modifiers::Parsed(_, r) => r,
                        Modifiers::Unterminated(_) => seq![],
                    };
                    let wm = match m {
                        Modifiers::Unterminated(u) => seq![
                            "flag `"@ + token
                                + "` has unterminated `(` in modifier list — modifiers ignored: "@
                                + debug_text(u),
                        ],
                        _ => seq![],
                    };
                    let d0 = FlagView {
                        name: long,
                        short: sc.0,
                        description: trim(after_colon(after)),
                        required: false,
                        takes_value: vp.0,
                        default: None,
                        choices: None,
                        repeatable: false,
                        env: None,
                    };
                    let applied = flag_modifiers(d0, token, mods);
                    let w = sc.1 + wv + wm + applied.1;
                    if all_ws(long) {
                        (
                            None,
                            w.push(
                                "flag `"@ + token + "` build failed: "@ + build_error_text(
                                    BuildErrorView::EmptyCanonical,
                                ),
                            ),
                        )
                    } else {
                        (Some(applied.0), w)
                    }
                }
            },
        },
    }
}

/// The flags and warnings of a `## Flags` section, line by line.
pub open spec fn flags_section(lines: Seq<Seq<char>>) -> (Seq<FlagView>, Seq<Seq<char>>)
    decreases lines.len(),
{
    if lines.len() == 0 {
        (seq![], seq![])
    } else {
        let prev = flags_section(lines.drop_last());
        let cur = flag_bullet(lines.last());
        (
            match cur.0 {
                Some(f) => prev.0.push(f),
                None => prev.0,
            },
            prev.1 + cur.1,
        )
    }
}

/// A line that is not a bullet yields neither a flag nor a warning; a
/// bullet that yields no flag yields at least one warning.
pub proof fn lemma_flag_bullet(raw: Seq<char>)
    ensures
        bullet_content(raw) is None ==> flag_bullet(raw) == (None::<FlagView>, Seq::<Seq<char>>::empty()),
        bullet_content(raw) is Some && flag_bullet(raw).0 is None ==> flag_bullet(raw).1.len() > 0,
{
}

/// The number of bullet lines.
pub open spec fn bullet_count(lines: Seq<Seq<char>>) -> nat
    decreases lines.len(),
{
    if lines.len() == 0 {
        0
    } else {
        bullet_count(lines.drop_last()) + if bullet_content(lines.last()) is Some {
            1nat
        } else {
            0nat
        }
    }
}

/// The number of bullet lines that yield no flag.
pub open spec fn flagless_bullet_count(lines: Seq<Seq<char>>) -> nat
    decreases lines.len(),
{
    if lines.len() == 0 {
        0
    } else {
        flagless_bullet_count(lines.drop_last()) + if bullet_content(lines.last()) is Some && flag_bullet(
            lines.last(),
        ).0 is None {
            1nat
        } else {
            0nat
        }
    }
}

/// A `## Flags` section gives at most one flag per bullet, and at least one
/// warning for each bullet that gives no flag.
pub proof fn lemma_flags_section_counts(lines: Seq<Seq<char>>)
    ensures
        flags_section(lines).0.len() <= bullet_count(lines),
        flags_section(lines).1.len() >= flagless_bullet_count(lines),
    decreases lines.len(),
{
    if lines.len() > 0 {
        lemma_flags_section_counts(lines.drop_last());
        lemma_flag_bullet(lines.last());
    }
}

/// The comma-separated parts of a flag token, each trimmed.
fn trimmed_parts(token: &String) -> (r: Vec<String>)
    ensures
        views(r@) == split_on(token@, ',').map_values(|p: Seq<char>| trim(p)),
{
    let parts = split_char(token.as_str(), ',');
    let mut out: Vec<String> = Vec::new();
    let mut i: usize = 0;
    while i < parts.len()
        invariant
            i <= parts.len(),
            views(parts@) == split_on(token@, ','),
            views(out@) == views(parts@).take(i as int).map_values(|p: Seq<char>| trim(p)),
        decreases parts.len() - i,
    {
        let ghost before = out@;
        out.push(crate::text::trim_str(parts[i].as_str()));
        proof {
            assert(views(out@) =~= views(before).push(trim(parts@[i as int]@)));
            assert(views(parts@).take(i + 1).map_values(|p: Seq<char>| trim(p)) =~= views(
                parts@,
            ).take(i as int).map_values(|p: Seq<char>| trim(p)).push(trim(parts@[i as int]@)));
        }
        i = i + 1;
    }
    proof {
        assert(views(parts@).take(parts.len() as int) =~= views(parts@));
    }
    out
}

/// Position of the first part that begins with `--`, or the length.
fn long_index(parts: &Vec<String>) -> (r: usize)
    ensures
        r == crate::model::first_where(0, parts@.len() as int, is_long_part(views(parts@))),
{
    let ghost ps = views(parts@);
    let mut i: usize = 0;
    while i < parts.len()
        invariant
            i <= parts.len(),
            ps == views(parts@),
            forall|k: int| 0 <= k < i ==> !(#[trigger] is_long_part(ps)(k)),
        decreases parts.len() - i,
    {
        let pv = chars_of(parts[i].as_str());
        if pv.len() >= 2 && pv[0] == '-' && pv[1] == '-' {
            proof {
                crate::model::lemma_first_where_at(0, ps.len() as int, is_long_part(ps), i as int);
            }
            return i;
        }
        i = i + 1;
    }
    proof {
        crate::model::lemma_first_where_none(0, ps.len() as int, is_long_part(ps));
    }
    i
}

/// The short form of a flag token, with the warnings met on the way.
fn scan_short(parts: &Vec<String>, token: &String) -> (r: (Option<char>, Vec<String>))
    ensures
        (r.0, views(r.1@)) == short_scan(views(parts@), token@),
{
    let ghost ps = views(parts@);
    let mut w: Vec<String> = Vec::new();
    let mut i: usize = 0;
    proof {
        assert(ps.skip(0) =~= ps);
        assert(views(w@) + short_scan(ps, token@).1 =~= short_scan(ps, token@).1);
    }
    while i < parts.len()
        invariant
            i <= parts.len(),
            ps == views(parts@),
            short_scan(ps, token@) == (
                short_scan(ps.skip(i as int), token@).0,
                views(w@) + short_scan(ps.skip(i as int), token@).1,
            ),
        decreases parts.len() - i,
    {
        let pv = chars_of(parts[i].as_str());
        proof {
            assert(ps.skip(i as int)[0] == pv@);
            assert(ps.skip(i as int).drop_first() =~= ps.skip(i + 1));
        }
        if !(pv.len() > 0 && pv[0] == '-') || (pv.len() > 1 && pv[1] == '-') {
        } else if pv.len() == 2 {
            proof {
                assert(views(w@) + Seq::<Seq<char>>::empty() =~= views(w@));
            }
            return (Some(pv[1]), w);
        } else {
            let ghost before = w@;
            w.push(
                cat5(
                    "flag `",
                    token.as_str(),
                    "` short alias `",
                    parts[i].as_str(),
                    "` must be a single character — short ignored",
                ),
            );
            proof {
                assert(views(w@) =~= views(before).push(w@.last()@));
                let rest = short_scan(ps.skip(i + 1), token@);
                assert(views(before) + (seq![w@.last()@] + rest.1) =~= views(w@) + rest.1);
            }
        }
        i = i + 1;
    }
    proof {
        assert(ps.skip(i as int) =~= Seq::<Seq<char>>::empty());
        assert(views(w@) + Seq::<Seq<char>>::empty() =~= views(w@));
    }
    (None, w)
}

/// First position in `v[lo..hi]` holding `(` or `:`, or `hi`.
fn find_paren_or_colon(v: &Vec<char>, lo: usize, hi: usize) -> (r: usize)
    requires
        lo <= hi <= v.len(),
    ensures
        lo <= r <= hi,
        r - lo == crate::model::first_where(
            0,
            hi - lo,
            paren_or_colon(v@.subrange(lo as int, hi as int)),
        ),
{
    let ghost s = v@.subrange(lo as int, hi as int);
    let mut k = lo;
    while k < hi && v[k] != '(' && v[k] != ':'
        invariant
            lo <= k <= hi <= v.len(),
            s == v@.subrange(lo as int, hi as int),
            forall|m: int| 0 <= m < k - lo ==> !(#[trigger] paren_or_colon(s)(m)),
        decreases hi - k,
    {
        k = k + 1;
    }
    proof {
        if k < hi {
            crate::model::lemma_first_where_at(0, s.len() as int, paren_or_colon(s), k - lo);
        } else {
            crate::model::lemma_first_where_none(0, s.len() as int, paren_or_colon(s));
        }
    }
    k
}

/// First position in `v[lo..hi]` holding whitespace, or `hi`.
fn find_ws(v: &Vec<char>, lo: usize, hi: usize) -> (r: usize)
    requires
        lo <= hi <= v.len(),
    ensures
        lo <= r <= hi,
        r - lo == crate::model::first_where(
            0,
            hi - lo,
            crate::text::ws_at(v@.subrange(lo as int, hi as int)),
        ),
{
    let ghost s = v@.subrange(lo as int, hi as int);
    let mut k = lo;
    while k < hi && !is_ws_exec(v[k])
        invariant
            lo <= k <= hi <= v.len(),
            s == v@.subrange(lo as int, hi as int),
            forall|m: int| 0 <= m < k - lo ==> !(#[trigger] crate::text::ws_at(s)(m)),
        decreases hi - k,
    {
        k = k + 1;
    }
    proof {
        if k < hi {
            crate::model::lemma_first_where_at(0, s.len() as int, crate::text::ws_at(s), k - lo);
        } else {
            crate::model::lemma_first_where_none(0, s.len() as int, crate::text::ws_at(s));
        }
    }
    k
}

/// The `<VALUE>` placeholder at the start of `v[lo..hi]`.
fn placeholder(v: &Vec<char>, lo: usize, hi: usize) -> (r: (bool, usize, bool))
    requires
        lo <= hi <= v.len(),
    ensures
        lo <= r.1 <= hi,
        value_placeholder(v@.subrange(lo as int, hi as int)) == (
            r.0,
            v@.subrange(r.1 as int, hi as int),
            r.2,
        ),
{
    let ghost s = v@.subrange(lo as int, hi as int);
    if lo < hi && v[lo] == '<' {
        proof {
            assert(s[0] == v@[lo as int]);
            assert(s.skip(1) =~= v@.subrange(lo + 1, hi as int));
        }
        let c = find_in(v, lo + 1, hi, '>');
        if c < hi {
            let p = skip_ws(v, c + 1, hi);
            proof {
                assert(s.skip(1).skip(c - (lo + 1) + 1) =~= v@.subrange(c + 1, hi as int));
            }
            (true, p, false)
        } else {
            let i = find_paren_or_colon(v, lo + 1, hi);
            let stop = if i < hi {
                i
            } else {
                find_ws(v, lo + 1, hi)
            };
            let p = skip_ws(v, stop, hi);
            proof {
                let r = s.skip(1);
                assert(value_stop(r) == stop - (lo + 1));
                assert(r.skip(stop - (lo + 1)) =~= v@.subrange(stop as int, hi as int));
            }
            (true, p, true)
        }
    } else {
        proof {
            if s.len() > 0 {
                assert(s[0] == v@[lo as int]);
            }
        }
        (false, lo, false)
    }
}

/// Whether some piece is empty once trimmed.
fn any_blank(parts: &Vec<String>) -> (r: bool)
    ensures
        r == some_blank(views(parts@)),
{
    let mut i: usize = 0;
    while i < parts.len()
        invariant
            i <= parts.len(),
            forall|k: int| 0 <= k < i ==> trim(#[trigger] views(parts@)[k]).len() > 0,
        decreases parts.len() - i,
    {
        let t = crate::text::trim_str(parts[i].as_str());
        if chars_of(t.as_str()).len() == 0 {
            proof {
                assert(trim(views(parts@)[i as int]).len() == 0);
            }
            return true;
        }
        i = i + 1;
    }
    false
}

/// Apply flag modifiers to a builder.
fn apply_flag_modifiers(
    b: FlagBuilder,
    token: &String,
    mods: &Vec<String>,
    warnings: &mut Vec<String>,
) -> (r: FlagBuilder)
    ensures
        r@ == flag_modifiers(b@, token@, views(mods@)).0,
        views(final(warnings)@) == views(old(warnings)@) + flag_modifiers(
            b@,
            token@,
            views(mods@),
        ).1,
        r@.name == b@.name,
{
    let ghost b0 = b@;
    let ghost w0 = views(warnings@);
    let mut b = b;
    let mut i: usize = 0;
    while i < mods.len()
        invariant
            i <= mods.len(),
            b@ == flag_modifiers(b0, token@, views(mods@).take(i as int)).0,
            views(warnings@) == w0 + flag_modifiers(b0, token@, views(mods@).take(i as int)).1,
            b0.name == b@.name,
        decreases mods.len() - i,
    {
        let m = &mods[i];
        let ghost wb = warnings@;
        proof {
            assert(views(mods@).take(i + 1).drop_last() =~= views(mods@).take(i as int));
            assert(views(mods@).take(i + 1).last() == m@);
        }
        match crate::text::strip_prefix_str(m.as_str(), "default:") {
            Some(v) => {
                let t = crate::text::trim_str(v.as_str());
                b = b.default_value(t.as_str());
            },
            None => match crate::text::strip_prefix_str(m.as_str(), "env:") {
                Some(v) => {
                    let t = crate::text::trim_str(v.as_str());
                    b = b.env(t.as_str());
                },
                None => match crate::text::strip_prefix_str(m.as_str(), "choices:") {
                    Some(v) => {
                        let parts = split_char(v.as_str(), '|');
                        let kept = keep_nonblank(&parts);
                        if any_blank(&parts) {
                            warnings.push(
                                cat3(
                                    "flag `",
                                    token.as_str(),
                                    "` choices list contained empty entries (dropped) — check for stray '|'",
                                ),
                            );
                            proof {
                                assert(views(warnings@) =~= views(wb).push(warnings@.last()@));
                            }
                        }
                        let ghost wc = warnings@;
                        if kept.len() == 0 {
                            warnings.push(
                                cat3(
                                    "flag `",
                                    token.as_str(),
                                    "` has empty `choices:` modifier — choices ignored",
                                ),
                            );
                            proof {
                                assert(views(warnings@) =~= views(wc).push(warnings@.last()@));
                            }
                        } else {
                            b = FlagBuilder { choices: Some(kept), ..b };
                        }
                    },
                    None => {
                        if crate::text::str_eq(m.as_str(), "required") {
                            b = b.required();
                        } else if crate::text::str_eq(m.as_str(), "repeatable") {
                            b = b.repeatable();
                        } else {
                            warnings.push(
                                cat5(
                                    "unknown flag modifier '",
                                    m.as_str(),
                                    "' on `",
                                    token.as_str(),
                                    "`",
                                ),
                            );
                            proof {
                                assert(views(warnings@) =~= views(wb).push(warnings@.last()@));
                            }
                        }
                    },
                },
            },
        }
        i = i + 1;
    }
    proof {
        assert(views(mods@).take(mods.len() as int) =~= views(mods@));
    }
    b
}

/// One line of a `## Flags` section.
fn flag_bullet_exec(raw: &String) -> (r: (Option<Flag>, Vec<String>))
    ensures
        match r.0 {
            Some(f) => flag_bullet(raw@).0 == Some(f@),
            None => flag_bullet(raw@).0 is None,
        },
        views(r.1@) == flag_bullet(raw@).1,
{
    let v = chars_of(raw.as_str());
    let mut w: Vec<String> = Vec::new();
    let (s, e) = match bullet_bounds(&v) {
        None => {
            return (None, w);
        },
        Some(p) => p,
    };
    let (a, b, c) = match backtick_bounds(&v, s, e) {
        None => {
            w.push(cat2("expected `--flag` in backticks, got ", debug_string(raw.as_str()).as_str()));
            proof {
                assert(views(w@) =~= flag_bullet(raw@).1);
            }
            return (None, w);
        },
        Some(t) => t,
    };
    let token = text_of(&v, a, b);
    let parts = trimmed_parts(&token);
    let li = long_index(&parts);
    if li >= parts.len() {
        w.push(cat3("flag `", token.as_str(), "` missing --long form"));
        proof {
            assert(views(w@) =~= flag_bullet(raw@).1);
        }
        return (None, w);
    }
    let lv = chars_of(parts[li].as_str());
    proof {
        crate::model::lemma_first_where_spec(0, parts@.len() as int, is_long_part(views(parts@)));
        assert(is_long_part(views(parts@))(li as int));
    }
    let long = string_of_range(&lv, 2, lv.len());
    proof {
        assert(long@ =~= views(parts@)[li as int].skip(2));
    }
    let (short, sw) = scan_short(&parts, &token);
    extend_strings(&mut w, sw);
    let (takes_value, after_value, unterminated) = placeholder(&v, c, e);
    if unterminated {
        let ghost wb = w@;
        w.push(
            cat3(
                "flag `",
                token.as_str(),
                "` has unterminated `<VALUE>` — assuming takes_value=true and skipping to next modifier or description",
            ),
        );
        proof {
            assert(views(w@) =~= views(wb).push(w@.last()@));
        }
    }
    let ghost w_before_mods = views(w@);
    let (mods, after) = match modifier_parse(&v, after_value, e) {
        ModifierParse::Absent(p) => (Vec::new(), Some(p)),
        ModifierParse::Parsed(m, p) => (m, Some(p)),
        ModifierParse::Unterminated(p) => {
            let u = text_of(&v, p, e);
            let ghost wb = w@;
            w.push(
                cat4(
                    "flag `",
                    token.as_str(),
                    "` has unterminated `(` in modifier list — modifiers ignored: ",
                    debug_string(u.as_str()).as_str(),
                ),
            );
            proof {
                assert(views(w@) =~= views(wb).push(w@.last()@));
            }
            (Vec::new(), None)
        },
    };
    let desc = match after {
        Some(p) => {
            let (x, y) = description_bounds(&v, p, e);
            text_of(&v, x, y)
        },
        None => String::new(),
    };
    let mut builder = Flag::builder(long.as_str());
    match short {
        Some(ch) => {
            builder = builder.short(ch);
        },
        None => {},
    }
    if takes_value {
        builder = builder.takes_value();
    }
    if chars_of(desc.as_str()).len() > 0 {
        builder = builder.description(desc.as_str());
    }
    assert(builder@.description =~= desc@);
    proof {
        let m = modifiers(v@.subrange(after_value as int, e as int));
        let aft = match m {
            Modifiers::Absent(r) => r,
            Modifiers::Parsed(_, r) => r,
            Modifiers::Unterminated(_) => seq![],
        };
        assert(trim(after_colon(Seq::<char>::empty())) =~= Seq::<char>::empty());
        assert(desc@ == trim(after_colon(aft)));
        assert(views(mods@) =~= match m {
            Modifiers::Parsed(l, _) => l,
            _ => seq![],
        });
    }
    let builder = apply_flag_modifiers(builder, &token, &mods, &mut w);
    match builder.build() {
        Ok(flag) => {
            proof {
                assert(views(w@) =~= flag_bullet(raw@).1);
            }
            (Some(flag), w)
        },
        Err(err) => {
            let ghost wb = w@;
            w.push(cat4("flag `", token.as_str(), "` build failed: ", err.message().as_str()));
            proof {
                assert(views(w@) =~= views(wb).push(w@.last()@));
                assert(views(w@) =~= flag_bullet(raw@).1);
            }
            (None, w)
        },
    }
}

/// Parse the lines of a `## Flags` section; warnings go to `msgs`.
fn parse_flags_section(lines: &Vec<String>, msgs: &mut Vec<String>) -> (r: Vec<Flag>)
    ensures
        flag_views(r@) == flags_section(views(lines@)).0,
        views(final(msgs)@) == views(old(msgs)@) + flags_section(views(lines@)).1,
{
    let ghost m0 = views(msgs@);
    let mut out: Vec<Flag> = Vec::new();
    let mut i: usize = 0;
    while i < lines.len()
        invariant
            i <= lines.len(),
            flag_views(out@) == flags_section(views(lines@).take(i as int)).0,
            views(msgs@) == m0 + flags_section(views(lines@).take(i as int)).1,
        decreases lines.len() - i,
    {
        let (f, w) = flag_bullet_exec(&lines[i]);
        proof {
            assert(views(lines@).take(i + 1).drop_last() =~= views(lines@).take(i as int));
            assert(views(lines@).take(i + 1).last() == lines@[i as int]@);
        }
        let ghost before = out@;
        match f {
            Some(flag) => {
                out.push(flag);
                proof {
                    assert(flag_views(out@) =~= flag_views(before).push(out@.last()@));
                }
            },
            None => {},
        }
        extend_strings(msgs, w);
        proof {
            let p = flags_section(views(lines@).take(i as int));
            let c = flag_bullet(lines@[i as int]@);
            assert(m0 + p.1 + c.1 =~= m0 + (p.1 + c.1));
        }
        i = i + 1;
    }
    proof {
        assert(views(lines@).take(lines.len() as int) =~= views(lines@));
    }
    out
}

// ── `## Examples` ───────────────────────────────────────────────────────────

/// Largest `i` in `[0, n)` at which `p` holds, or `-1`.
pub open spec fn last_where(n: int, p: spec_fn(int) -> bool) -> int
    decreases n,
{
    if n <= 0 {
        -1
    } else if p(n - 1) {
        n - 1
    } else {
        last_where(n - 1, p)
    }
}

/// `last_where` finds `i` when `p` holds there and nowhere after it.
proof fn lemma_last_where_at(n: int, p: spec_fn(int) -> bool, i: int)
    requires
        0 <= i < n,
        p(i),
        forall|k: int| i < k < n ==> !#[trigger] p(k),
    ensures
        last_where(n, p) == i,
    decreases n,
{
    if n - 1 > i {
        lemma_last_where_at(n - 1, p, i);
    }
}

/// `last_where` gives `-1` when `p` holds nowhere in `[0, n)`.
proof fn lemma_last_where_none(n: int, p: spec_fn(int) -> bool)
    requires
        forall|k: int| 0 <= k < n ==> !#[trigger] p(k),
    ensures
        last_where(n, p) == -1,
    decreases n,
{
    if n > 0 {
        lemma_last_where_none(n - 1, p);
    }
}

/// The `:` at `i` of `s` is followed, after whitespace, by a backtick.
pub open spec fn title_colon(s: Seq<char>) -> spec_fn(int) -> bool {
    |i: int|
        s[i] == ':' && {
            let a = trim_start(s.skip(i + 1));
            a.len() > 0 && a[0] == '`'
        }
}

/// An example bullet's title and command part: the title is what precedes
/// the last `:` that is followed by a backtick, trimmed.
pub open spec fn example_split(content: Seq<char>) -> (Option<Seq<char>>, Seq<char>) {
    if content.len() > 0 && content[0] == '`' {
        (None, content)
    } else {
        let i = last_where(content.len() as int, title_colon(content));
        if i >= 0 {
            (Some(trim(content.take(i))), trim_start(content.skip(i + 1)))
        } else {
            (None, content)
        }
    }
}

/// What one line of an `## Examples` section yields: the example's
/// description (its title, or else the command) and command, and warnings.
pub open spec fn example_bullet(raw: Seq<char>) -> (Option<(Seq<char>, Seq<char>)>, Seq<Seq<char>>) {
    match bullet_content(raw) {
        None => (None, seq![]),
        Some(content) => {
            let sp = example_split(content);
            match backtick_token(sp.1) {
                Some(t) if t.0.len() > 0 => (
                    Some(
                        (
                            match sp.0 {
                                Some(title) => title,
                                None => t.0,
                            },
                            t.0,
                        ),
                    ),
                    seq![],
                ),
                _ => (
                    None,
                    seq![
                        "expected `command` in backticks (optionally preceded by `title: `), got "@
                            + debug_text(raw),
                    ],
                ),
            }
        },
    }
}

/// The examples (description and command) and warnings of an
/// `## Examples` section, line by line.
pub open spec fn examples_section(lines: Seq<Seq<char>>) -> (
    Seq<(Seq<char>, Seq<char>)>,
    Seq<Seq<char>>,
)
    decreases lines.len(),
{
    if lines.len() == 0 {
        (seq![], seq![])
    } else {
        let prev = examples_section(lines.drop_last());
        let cur = example_bullet(lines.last());
        (
            match cur.0 {
                Some(x) => prev.0.push(x),
                None => prev.0,
            },
            prev.1 + cur.1,
        )
    }
}

/// Description and command of a list of examples.
pub open spec fn example_pairs(e: Seq<Example>) -> Seq<(Seq<char>, Seq<char>)> {
    e.map_values(|x: Example| (x.description@, x.command@))
}

/// Where the title of the example bullet `v[lo..hi]` ends: the position of
/// the separating `:`, if any.
fn title_end(v: &Vec<char>, lo: usize, hi: usize) -> (r: Option<usize>)
    requires
        lo <= hi <= v.len(),
    ensures
        match r {
            Some(k) => lo <= k < hi && last_where(
                hi - lo,
                title_colon(v@.subrange(lo as int, hi as int)),
            ) == k - lo,
            None => last_where(hi - lo, title_colon(v@.subrange(lo as int, hi as int))) == -1,
        },
{
    let ghost s = v@.subrange(lo as int, hi as int);
    let mut k = hi;
    while k > lo
        invariant
            lo <= k <= hi <= v.len(),
            s == v@.subrange(lo as int, hi as int),
            forall|j: int| k - lo <= j < hi - lo ==> !(#[trigger] title_colon(s)(j)),
        decreases k - lo,
    {
        let i = k - 1;
        if v[i] == ':' {
            let p = skip_ws(v, i + 1, hi);
            proof {
                assert(s[i - lo] == v@[i as int]);
                assert(s.skip(i - lo + 1) =~= v@.subrange(i + 1, hi as int));
                let a = trim_start(s.skip(i - lo + 1));
                if a.len() > 0 {
                    assert(a[0] == v@[p as int]);
                }
            }
            if p < hi && v[p] == '`' {
                proof {
                    lemma_last_where_at(hi - lo, title_colon(s), i - lo);
                }
                return Some(i);
            }
        } else {
            proof {
                assert(s[i - lo] == v@[i as int]);
            }
        }
        k = i;
    }
    proof {
        lemma_last_where_none(hi - lo, title_colon(s));
    }
    None
}

/// One line of an `## Examples` section.
fn example_bullet_exec(raw: &String) -> (r: (Option<Example>, Vec<String>))
    ensures
        match r.0 {
            Some(x) => example_bullet(raw@).0 == Some((x.description@, x.command@))
                && x.output is None,
            None => example_bullet(raw@).0 is None,
        },
        views(r.1@) == example_bullet(raw@).1,
{
    let v = chars_of(raw.as_str());
    let mut w: Vec<String> = Vec::new();
    let (s, e) = match bullet_bounds(&v) {
        None => {
            return (None, w);
        },
        Some(p) => p,
    };
    let ghost content = v@.subrange(s as int, e as int);
    let (title, cmd_lo): (Option<String>, usize) = if v[s] == '`' {
        proof {
            assert(content[0] == v@[s as int]);
        }
        (None, s)
    } else {
        proof {
            if content.len() > 0 {
                assert(content[0] == v@[s as int]);
            }
        }
        match title_end(&v, s, e) {
            Some(k) => {
                let (x, y) = trim_bounds(&v, s, k);
                let p = skip_ws(&v, k + 1, e);
                proof {
                    assert(content.take(k - s) =~= v@.subrange(s as int, k as int));
                    assert(content.skip(k - s + 1) =~= v@.subrange(k + 1, e as int));
                }
                (Some(text_of(&v, x, y)), p)
            },
            None => (None, s),
        }
    };
    proof {
        let sp = example_split(content);
        assert(sp.1 == v@.subrange(cmd_lo as int, e as int));
    }
    match backtick_bounds(&v, cmd_lo, e) {
        Some((a, b, _)) => {
            if a < b {
                let cmd = text_of(&v, a, b);
                let desc = match title {
                    Some(t) => t,
                    None => text_of(&v, a, b),
                };
                let ex = Example::new(desc.as_str(), cmd.as_str());
                return (Some(ex), w);
            }
        },
        None => {},
    }
    w.push(
        cat2(
            "expected `command` in backticks (optionally preceded by `title: `), got ",
            debug_string(raw.as_str()).as_str(),
        ),
    );
    proof {
        assert(views(w@) =~= example_bullet(raw@).1);
    }
    (None, w)
}

/// Parse the lines of an `## Examples` section; warnings go to `msgs`.
fn parse_examples_section(lines: &Vec<String>, msgs: &mut Vec<String>) -> (r: Vec<Example>)
    ensures
        example_pairs(r@) == examples_section(views(lines@)).0,
        forall|i: int| 0 <= i < r@.len() ==> (#[trigger] r@[i]).output is None,
        views(final(msgs)@) == views(old(msgs)@) + examples_section(views(lines@)).1,
{
    let ghost m0 = views(msgs@);
    let mut out: Vec<Example> = Vec::new();
    let mut i: usize = 0;
    while i < lines.len()
        invariant
            i <= lines.len(),
            example_pairs(out@) == examples_section(views(lines@).take(i as int)).0,
            forall|j: int| 0 <= j < out@.len() ==> (#[trigger] out@[j]).output is None,
            views(msgs@) == m0 + examples_section(views(lines@).take(i as int)).1,
        decreases lines.len() - i,
    {
        let (x, w) = example_bullet_exec(&lines[i]);
        proof {
            assert(views(lines@).take(i + 1).drop_last() =~= views(lines@).take(i as int));
            assert(views(lines@).take(i + 1).last() == lines@[i as int]@);
        }
        let ghost before = out@;
        match x {
            Some(ex) => {
                out.push(ex);
                proof {
                    assert(example_pairs(out@) =~= example_pairs(before).push(
                        (out@.last().description@, out@.last().command@),
                    ));
                }
            },
            None => {},
        }
        extend_strings(msgs, w);
        proof {
            let p = examples_section(views(lines@).take(i as int));
            let c = example_bullet(lines@[i as int]@);
            assert(m0 + p.1 + c.1 =~= m0 + (p.1 + c.1));
        }
        i = i + 1;
    }
    proof {
        assert(views(lines@).take(lines.len() as int) =~= views(lines@));
    }
    out
}

// ── The body ────────────────────────────────────────────────────────────────

/// Which part of the body the lines being read belong to.
#[derive(Clone, Copy, PartialEq, Eq, Structural)]
pub enum Section {
    Prelude,
    Arguments,
    Flags,
    Examples,
}

/// The body read so far: the current section, the prelude text (each line
/// followed by a newline) and the raw lines of each structured section.
#[verifier::ext_equal]
pub struct SectionsView {
    pub mode: Section,
    pub prelude: Seq<char>,
    pub arguments: Seq<Seq<char>>,
    pub flags: Seq<Seq<char>>,
    pub examples: Seq<Seq<char>>,
}

/// Read one body line: a `## ` heading switches section (an unknown heading
/// switches back to the prelude and is kept in it); any other line joins
/// the current section.
pub open spec fn section_step(st: SectionsView, line: Seq<char>) -> SectionsView {
    match crate::text::strip_prefix(line, "## "@) {
        Some(rest) => {
            let h = crate::text::ascii_lower_seq(trim(rest));
            if h == "arguments"@ {
                SectionsView { mode: Section::Arguments, ..st }
            } else if h == "flags"@ {
                SectionsView { mode: Section::Flags, ..st }
            } else if h == "examples"@ {
                SectionsView { mode: Section::Examples, ..st }
            } else {
                SectionsView { mode: Section::Prelude, prelude: st.prelude + line + seq!['\n'], ..st }
            }
        },
        None => match st.mode {
            Section::Prelude => SectionsView { prelude: st.prelude + line + seq!['\n'], ..st },
            Section::Arguments => SectionsView { arguments: st.arguments.push(line), ..st },
            Section::Flags => SectionsView { flags: st.flags.push(line), ..st },
            Section::Examples => SectionsView { examples: st.examples.push(line), ..st },
        },
    }
}

/// The body split into prelude and sections, reading its lines in order.
pub open spec fn body_sections(lines: Seq<Seq<char>>) -> SectionsView
    decreases lines.len(),
{
    if lines.len() == 0 {
        SectionsView {
            mode: Section::Prelude,
            prelude: seq![],
            arguments: seq![],
            flags: seq![],
            examples: seq![],
        }
    } else {
        section_step(body_sections(lines.drop_last()), lines.last())
    }
}

/// `part` holds only lines of `lines` that are not `## ` headings.
pub open spec fn plain_lines_of(part: Seq<Seq<char>>, lines: Seq<Seq<char>>) -> bool {
    forall|k: int|
        0 <= k < part.len() ==> lines.contains(#[trigger] part[k]) && crate::text::strip_prefix(
            part[k],
            "## "@,
        ) is None
}

/// The body split: the `## Arguments`, `## Flags` and `## Examples`
/// sections hold only body lines that are not headings, each line going to
/// at most one of them; every other line (and every unknown heading) goes
/// to the prelude.
pub proof fn lemma_body_sections(lines: Seq<Seq<char>>)
    ensures
        ({
            let b = body_sections(lines);
            &&& plain_lines_of(b.arguments, lines)
            &&& plain_lines_of(b.flags, lines)
            &&& plain_lines_of(b.examples, lines)
            &&& b.arguments.len() + b.flags.len() + b.examples.len() <= lines.len()
        }),
    decreases lines.len(),
{
    if lines.len() > 0 {
        let prev = lines.drop_last();
        lemma_body_sections(prev);
        let p = body_sections(prev);
        let line = lines.last();
        let b = body_sections(lines);
        assert forall|x: Seq<char>| prev.contains(x) implies lines.contains(x) by {
            let k = choose|k: int| 0 <= k < prev.len() && prev[k] == x;
            assert(lines[k] == x);
        }
        assert(lines[lines.len() - 1] == line);
        assert(lines.contains(line));
        assert forall|k: int| 0 <= k < b.arguments.len() implies lines.contains(#[trigger] b.arguments[k])
            && crate::text::strip_prefix(b.arguments[k], "## "@) is None by {
            if k < p.arguments.len() && b.arguments[k] == p.arguments[k] {
                assert(prev.contains(p.arguments[k]));
            }
        }
        assert forall|k: int| 0 <= k < b.flags.len() implies lines.contains(#[trigger] b.flags[k])
            && crate::text::strip_prefix(b.flags[k], "## "@) is None by {
            if k < p.flags.len() && b.flags[k] == p.flags[k] {
                assert(prev.contains(p.flags[k]));
            }
        }
        assert forall|k: int| 0 <= k < b.examples.len() implies lines.contains(#[trigger] b.examples[k])
            && crate::text::strip_prefix(b.examples[k], "## "@) is None by {
            if k < p.examples.len() && b.examples[k] == p.examples[k] {
                assert(prev.contains(p.examples[k]));
            }
        }
    }
}

/// `str::to_ascii_lowercase`.
fn ascii_lowercase(s: &str) -> (r: String)
    ensures
        r@ == crate::text::ascii_lower_seq(s@),
{
    let v = chars_of(s);
    let mut out = String::new();
    let mut i: usize = 0;
    while i < v.len()
        invariant
            i <= v.len(),
            v@ == s@,
            out@ == crate::text::ascii_lower_seq(v@.take(i as int)),
        decreases v.len() - i,
    {
        let c = v[i];
        let l = if 'A' <= c && c <= 'Z' {
            let b: u8 = c as u8;
            proof {
                assert(b == c as u32);
            }
            ((b + 32) as char)
        } else {
            c
        };
        proof {
            assert(l == crate::text::ascii_lower(c));
        }
        crate::text::push_char(&mut out, l);
        proof {
            assert(crate::text::ascii_lower_seq(v@.take(i + 1)) =~= crate::text::ascii_lower_seq(
                v@.take(i as int),
            ).push(l));
        }
        i = i + 1;
    }
    proof {
        assert(v@.take(v.len() as int) =~= v@);
    }
    out
}

/// The body split into prelude and sections.
pub struct BodySections {
    pub mode: Section,
    pub prelude: String,
    pub arguments: Vec<String>,
    pub flags: Vec<String>,
    pub examples: Vec<String>,
}

impl View for BodySections {
    type V = SectionsView;

    open spec fn view(&self) -> SectionsView {
        SectionsView {
            mode: self.mode,
            prelude: self.prelude@,
            arguments: views(self.arguments@),
            flags: views(self.flags@),
            examples: views(self.examples@),
        }
    }
}

/// Split a body into its prelude and its sections.
fn split_body_sections(body: &str) -> (r: BodySections)
    ensures
        r@ == body_sections(crate::text::lines_of(body@)),
{
    let lines = crate::text::lines(body);
    let ghost ls = views(lines@);
    let mut out = BodySections {
        mode: Section::Prelude,
        prelude: String::new(),
        arguments: Vec::new(),
        flags: Vec::new(),
        examples: Vec::new(),
    };
    let mut i: usize = 0;
    proof {
        assert(views(out.arguments@) =~= Seq::<Seq<char>>::empty());
        assert(out@ =~= body_sections(ls.take(0)));
    }
    while i < lines.len()
        invariant
            i <= lines.len(),
            ls == views(lines@),
            out@ == body_sections(ls.take(i as int)),
        decreases lines.len() - i,
    {
        let line = &lines[i];
        proof {
            assert(ls.take(i + 1).drop_last() =~= ls.take(i as int));
            assert(ls.take(i + 1).last() == line@);
        }
        let ghost st = out@;
        match crate::text::strip_prefix_str(line.as_str(), "## ") {
            Some(rest) => {
                let h = ascii_lowercase(crate::text::trim_str(rest.as_str()).as_str());
                if crate::text::str_eq(h.as_str(), "arguments") {
                    out.mode = Section::Arguments;
                } else if crate::text::str_eq(h.as_str(), "flags") {
                    out.mode = Section::Flags;
                } else if crate::text::str_eq(h.as_str(), "examples") {
                    out.mode = Section::Examples;
                } else {
                    out.mode = Section::Prelude;
                    out.prelude.append(line.as_str());
                    crate::text::push_char(&mut out.prelude, '\n');
                }
            },
            None => {
                match out.mode {
                    Section::Prelude => {
                        out.prelude.append(line.as_str());
                        crate::text::push_char(&mut out.prelude, '\n');
                    },
                    Section::Arguments => {
                        out.arguments.push(line.clone());
                        proof {
                            assert(views(out.arguments@) =~= st.arguments.push(line@));
                        }
                    },
                    Section::Flags => {
                        out.flags.push(line.clone());
                        proof {
                            assert(views(out.flags@) =~= st.flags.push(line@));
                        }
                    },
                    Section::Examples => {
                        out.examples.push(line.clone());
                        proof {
                            assert(views(out.examples@) =~= st.examples.push(line@));
                        }
                    },
                }
            },
        }
        proof {
            assert(out@ =~= section_step(st, line@));
        }
        i = i + 1;
    }
    proof {
        assert(ls.take(lines.len() as int) =~= ls);
    }
    out
}

// ── The frontmatter block ───────────────────────────────────────────────────

/// Number of leading byte-order marks.
pub open spec fn bom_len(s: Seq<char>) -> nat
    decreases s.len(),
{
    if s.len() > 0 && s[0] == '\u{feff}' {
        1 + bom_len(s.drop_first())
    } else {
        0
    }
}

/// `---` occurs at `k` of `s`.
pub open spec fn dashes_at(s: Seq<char>) -> spec_fn(int) -> bool {
    |k: int| k + 3 <= s.len() && s[k] == '-' && s[k + 1] == '-' && s[k + 2] == '-'
}

/// The `---` at `k` stands on a line of its own: it starts the text or
/// follows a `\n`, and ends the text or precedes `\n` or `\r\n`.
pub open spec fn closes_at(s: Seq<char>, k: int) -> bool {
    (k == 0 || s[k - 1] == '\n') && (k + 3 == s.len() || (k + 3 < s.len() && s[k + 3] == '\n')
        || (k + 4 < s.len() && s[k + 3] == '\r' && s[k + 4] == '\n'))
}

/// Position of the closing `---`, searching the occurrences of `---` from
/// `pos` on, each search resuming after the previous occurrence; `-1` when
/// there is none.
pub open spec fn close_from(s: Seq<char>, pos: int) -> int
    decreases s.len() - pos,
{
    if pos < 0 || pos >= s.len() {
        -1
    } else {
        let k = crate::model::first_where(pos, s.len() as int, dashes_at(s));
        if k >= s.len() {
            -1
        } else if closes_at(s, k) {
            k
        } else {
            proof {
                crate::model::lemma_first_where_spec(pos, s.len() as int, dashes_at(s));
            }
            close_from(s, k + 3)
        }
    }
}

/// `s` without one leading `\r\n` or `\n`.
pub open spec fn strip_eol(s: Seq<char>) -> Seq<char> {
    if s.len() > 1 && s[0] == '\r' && s[1] == '\n' {
        s.skip(2)
    } else if s.len() > 0 && s[0] == '\n' {
        s.skip(1)
    } else {
        s
    }
}

/// The frontmatter text and the body of a file: after byte-order marks, the
/// file opens with `---` and a line ending, and a `---` on a line of its own
/// closes the block. `None` when the block is missing or unterminated.
pub open spec fn frontmatter_split(raw: Seq<char>) -> Option<(Seq<char>, Seq<char>)> {
    let t = raw.skip(bom_len(raw) as int);
    if t.len() >= 3 && t[0] == '-' && t[1] == '-' && t[2] == '-' {
        let a = t.skip(3);
        let start = if a.len() > 0 && a[0] == '\n' {
            1int
        } else if a.len() > 1 && a[0] == '\r' && a[1] == '\n' {
            2int
        } else {
            0int
        };
        if start == 0 {
            None
        } else {
            let af = a.skip(start);
            let k = close_from(af, 0);
            if k < 0 {
                None
            } else {
                Some((af.take(k), strip_eol(af.skip(k + 3))))
            }
        }
    } else {
        None
    }
}

/// A key line `key: rest` split into its trimmed key and trimmed rest;
/// `None` without a `:` or with an empty key.
pub open spec fn split_key(line: Seq<char>) -> Option<(Seq<char>, Seq<char>)> {
    let i = find_char(line, ':');
    if i >= line.len() {
        None
    } else {
        let k = trim(line.take(i));
        if k.len() == 0 {
            None
        } else {
            Some((k, trim(line.skip(i + 1))))
        }
    }
}

/// The indented lines that start at `j` (blank lines continue the block but
/// are not collected), and how many lines the block spans.
pub open spec fn indented_block(lines: Seq<Seq<char>>, j: int) -> (Seq<Seq<char>>, int)
    decreases lines.len() - j,
{
    if j < 0 || j >= lines.len() {
        (seq![], 0)
    } else {
        let l = lines[j];
        if trim_start(l).len() == 0 {
            let r = indented_block(lines, j + 1);
            (r.0, r.1 + 1)
        } else if l[0] == ' ' || l[0] == '\t' {
            let r = indented_block(lines, j + 1);
            (seq![l] + r.0, r.1 + 1)
        } else {
            (seq![], 0)
        }
    }
}

/// `s` trimmed, without one pair of matching surrounding quotes.
pub open spec fn unquoted(s: Seq<char>) -> Seq<char> {
    let t = trim(s);
    if t.len() >= 2 && ((t[0] == '"' && t.last() == '"') || (t[0] == '\'' && t.last() == '\'')) {
        t.subrange(1, t.len() - 1)
    } else {
        t
    }
}

/// The JSON text of a frontmatter scalar: a quoted value is a string,
/// `true` and `false` are booleans, an integer is a number, and anything
/// else is a string.
pub open spec fn scalar_json(raw: Seq<char>) -> Seq<char> {
    if raw.len() > 0 && (raw[0] == '"' || raw[0] == '\'') {
        crate::json::json_string_text(unquoted(raw))
    } else if raw == "true"@ {
        "true"@
    } else if raw == "false"@ {
        "false"@
    } else {
        match crate::text::i64_value(raw) {
            Some(n) => crate::text::decimal(n as int),
            None => crate::json::json_string_text(raw),
        }
    }
}

/// The frontmatter read so far; `warnings` pairs each field with a message.
#[verifier::ext_equal]
pub struct FrontmatterView {
    pub name: Option<Seq<char>>,
    pub summary: Option<Seq<char>>,
    pub layer: Option<Seq<char>>,
    pub overrides: Option<Seq<char>>,
    pub priority: Option<i32>,
    pub mutating: bool,
    pub aliases: Seq<Seq<char>>,
    pub spellings: Seq<Seq<char>>,
    pub semantic_aliases: Seq<Seq<char>>,
    pub best_practices: Seq<Seq<char>>,
    pub anti_patterns: Seq<Seq<char>>,
    pub extra: Seq<(Seq<char>, Seq<char>)>,
    pub warnings: Seq<(Seq<char>, Seq<char>)>,
}

/// Nothing read yet.
pub open spec fn empty_frontmatter() -> FrontmatterView {
    FrontmatterView {
        name: None,
        summary: None,
        layer: None,
        overrides: None,
        priority: None,
        mutating: false,
        aliases: seq![],
        spellings: seq![],
        semantic_aliases: seq![],
        best_practices: seq![],
        anti_patterns: seq![],
        extra: seq![],
        warnings: seq![],
    }
}

/// `st` with one more warning.
pub open spec fn fm_warn(st: FrontmatterView, field: Seq<char>, msg: Seq<char>) -> FrontmatterView {
    FrontmatterView { warnings: st.warnings.push((field, msg)), ..st }
}

/// The keys whose values are lists of strings.
pub open spec fn is_list_key(key: Seq<char>) -> bool {
    key == "aliases"@ || key == "spellings"@ || key == "semantic_aliases"@ || key
        == "best_practices"@ || key == "anti_patterns"@
}

/// Read a `key: value` line.
pub open spec fn apply_scalar(st: FrontmatterView, key: Seq<char>, value: Seq<char>) -> FrontmatterView {
    let u = unquoted(value);
    if key == "name"@ {
        FrontmatterView { name: Some(u), ..st }
    } else if key == "summary"@ {
        FrontmatterView { summary: Some(u), ..st }
    } else if key == "layer"@ {
        FrontmatterView { layer: Some(u), ..st }
    } else if key == "overrides"@ {
        FrontmatterView { overrides: Some(u), ..st }
    } else if key == "priority"@ {
        match crate::text::i32_value(value) {
            Some(n) => FrontmatterView { priority: Some(n), ..st },
            None => fm_warn(
                st,
                "priority"@,
                "not an integer: "@ + crate::text::int_error_text(value),
            ),
        }
    } else if key == "mutating"@ {
        if value == "true"@ {
            FrontmatterView { mutating: true, ..st }
        } else if value == "false"@ {
            FrontmatterView { mutating: false, ..st }
        } else {
            fm_warn(st, "mutating"@, "expected 'true' or 'false', got "@ + debug_text(value))
        }
    } else if is_list_key(key) || key == "extra"@ {
        fm_warn(
            st,
            key,
            "expected a list/map block (use 'key:' on its own line followed by indented entries)"@,
        )
    } else {
        fm_warn(st, key, "unknown frontmatter key"@)
    }
}

/// The items of a list block, and a warning (field `key`) for each line
/// that is no `- item`.
pub open spec fn string_list(children: Seq<Seq<char>>, key: Seq<char>) -> (
    Seq<Seq<char>>,
    Seq<(Seq<char>, Seq<char>)>,
)
    decreases children.len(),
{
    if children.len() == 0 {
        (seq![], seq![])
    } else {
        let prev = string_list(children.drop_last(), key);
        let line = children.last();
        let t = trim_start(line);
        if t.len() >= 2 && t[0] == '-' && t[1] == ' ' {
            (prev.0.push(unquoted(trim(t.skip(2)))), prev.1)
        } else if (t.len() == 1 && t[0] == '-') || t.len() == 0 {
            prev
        } else {
            (prev.0, prev.1.push((key, "expected '- item' line, got "@ + debug_text(line))))
        }
    }
}

/// The entries of the `extra` map block (key and JSON text), and a warning
/// for each line that is no `key: value`.
pub open spec fn extra_map(children: Seq<Seq<char>>) -> (
    Seq<(Seq<char>, Seq<char>)>,
    Seq<(Seq<char>, Seq<char>)>,
)
    decreases children.len(),
{
    if children.len() == 0 {
        (seq![], seq![])
    } else {
        let prev = extra_map(children.drop_last());
        let line = children.last();
        let t = trim_start(line);
        let i = find_char(t, ':');
        if t.len() == 0 {
            prev
        } else if i >= t.len() {
            (prev.0, prev.1.push(("extra"@, "expected 'key: value', got "@ + debug_text(line))))
        } else {
            (prev.0.push((trim(t.take(i)), scalar_json(trim(t.skip(i + 1))))), prev.1)
        }
    }
}

/// Read a block key (`key:` followed by indented lines).
pub open spec fn apply_block(st: FrontmatterView, key: Seq<char>, children: Seq<Seq<char>>) -> FrontmatterView {
    let l = string_list(children, key);
    if key == "aliases"@ {
        FrontmatterView { aliases: st.aliases + l.0, warnings: st.warnings + l.1, ..st }
    } else if key == "spellings"@ {
        FrontmatterView { spellings: st.spellings + l.0, warnings: st.warnings + l.1, ..st }
    } else if key == "semantic_aliases"@ {
        FrontmatterView {
            semantic_aliases: st.semantic_aliases + l.0,
            warnings: st.warnings + l.1,
            ..st
        }
    } else if key == "best_practices"@ {
        FrontmatterView {
            best_practices: st.best_practices + l.0,
            warnings: st.warnings + l.1,
            ..st
        }
    } else if key == "anti_patterns"@ {
        FrontmatterView {
            anti_patterns: st.anti_patterns + l.0,
            warnings: st.warnings + l.1,
            ..st
        }
    } else if key == "extra"@ {
        let m = extra_map(children);
        FrontmatterView { extra: st.extra + m.0, warnings: st.warnings + m.1, ..st }
    } else {
        fm_warn(st, key, "unknown block key"@)
    }
}

/// Read the frontmatter lines from `i` on. Blank and `#` lines are skipped;
/// an indented line outside a block, or a line without a key, yields a
/// warning.
pub open spec fn fm_from(lines: Seq<Seq<char>>, i: int, st: FrontmatterView) -> FrontmatterView
    decreases lines.len() - i,
{
    if i < 0 || i >= lines.len() {
        st
    } else {
        let line = trim_end(lines[i]);
        let t = trim_start(line);
        if t.len() == 0 || t[0] == '#' {
            fm_from(lines, i + 1, st)
        } else if line[0] == ' ' || line[0] == '\t' {
            fm_from(
                lines,
                i + 1,
                fm_warn(st, "<indent>"@, "unexpected indented line: "@ + debug_text(line)),
            )
        } else {
            match split_key(line) {
                None => fm_from(
                    lines,
                    i + 1,
                    fm_warn(st, "<line>"@, "could not parse line: "@ + debug_text(line)),
                ),
                Some(kv) => if kv.1.len() == 0 {
                    let blk = indented_block(lines, i + 1);
                    proof {
                        lemma_indented_block_len(lines, i + 1);
                    }
                    fm_from(lines, i + 1 + blk.1, apply_block(st, kv.0, blk.0))
                } else {
                    fm_from(lines, i + 1, apply_scalar(st, kv.0, kv.1))
                },
            }
        }
    }
}

/// A block spans no lines past the end of the text.
pub proof fn lemma_indented_block_len(lines: Seq<Seq<char>>, j: int)
    ensures
        0 <= indented_block(lines, j).1,
        0 <= j ==> j + indented_block(lines, j).1 <= lines.len() || indented_block(lines, j).1 == 0,
    decreases lines.len() - j,
{
    if 0 <= j < lines.len() {
        lemma_indented_block_len(lines, j + 1);
    }
}

/// The frontmatter read from its text.
pub open spec fn parse_frontmatter_spec(text: Seq<char>) -> FrontmatterView {
    fm_from(crate::text::lines_of(text), 0, empty_frontmatter())
}

// ── Executable frontmatter reading ──────────────────────────────────────────

/// A copy of `v[lo..hi]`.
fn sub_vec(v: &Vec<char>, lo: usize, hi: usize) -> (r: Vec<char>)
    requires
        lo <= hi <= v.len(),
    ensures
        r@ == v@.subrange(lo as int, hi as int),
{
    let mut out: Vec<char> = Vec::new();
    let mut i = lo;
    while i < hi
        invariant
            lo <= i <= hi <= v.len(),
            out@ == v@.subrange(lo as int, i as int),
        decreases hi - i,
    {
        out.push(v[i]);
        assert(v@.subrange(lo as int, i + 1) =~= v@.subrange(lo as int, i as int).push(v@[i as int]));
        i = i + 1;
    }
    out
}

/// First occurrence of `---` in `v` at or after `lo`, or the length.
fn find_dashes(v: &Vec<char>, lo: usize) -> (r: usize)
    requires
        lo <= v.len(),
    ensures
        lo <= r <= v.len(),
        r == crate::model::first_where(lo as int, v@.len() as int, dashes_at(v@)),
{
    let n = v.len();
    let mut k = lo;
    while k < n && !(n - k >= 3 && v[k] == '-' && v[k + 1] == '-' && v[k + 2] == '-')
        invariant
            lo <= k <= n,
            n == v@.len(),
            forall|m: int| lo <= m < k ==> !(#[trigger] dashes_at(v@)(m)),
        decreases n - k,
    {
        k = k + 1;
    }
    proof {
        if k < n {
            crate::model::lemma_first_where_at(lo as int, n as int, dashes_at(v@), k as int);
        } else {
            crate::model::lemma_first_where_none(lo as int, n as int, dashes_at(v@));
        }
    }
    k
}

/// Position of the closing `---` in `af`.
fn find_close(af: &Vec<char>) -> (r: Option<usize>)
    ensures
        match r {
            Some(k) => close_from(af@, 0) == k as int && k + 3 <= af.len(),
            None => close_from(af@, 0) == -1,
        },
{
    let n = af.len();
    let mut pos: usize = 0;
    while pos < n
        invariant
            pos <= n,
            n == af@.len(),
            close_from(af@, 0) == close_from(af@, pos as int),
        decreases n - pos,
    {
        let k = find_dashes(af, pos);
        if k >= n {
            return None;
        }
        proof {
            crate::model::lemma_first_where_spec(pos as int, n as int, dashes_at(af@));
        }
        let start_ok = k == 0 || af[k - 1] == '\n';
        let end_ok = n - k == 3 || (n - k > 3 && af[k + 3] == '\n') || (n - k > 4 && af[k + 3]
            == '\r' && af[k + 4] == '\n');
        if start_ok && end_ok {
            return Some(k);
        }
        pos = k + 3;
    }
    None
}

/// Split a file into its frontmatter text and its body.
#[verifier::rlimit(40)]
pub fn split_frontmatter(raw: &str) -> (r: Option<(String, String)>)
    ensures
        match r {
            Some((f, b)) => frontmatter_split(raw@) == Some((f@, b@)),
            None => frontmatter_split(raw@) is None,
        },
{
    let v = chars_of(raw);
    let n = v.len();
    let mut b: usize = 0;
    proof {
        assert(v@.skip(0) =~= v@);
    }
    while b < n && v[b] == '\u{feff}'
        invariant
            b <= n,
            n == v@.len(),
            v@ == raw@,
            bom_len(v@) == b + bom_len(v@.skip(b as int)),
        decreases n - b,
    {
        proof {
            assert(v@.skip(b as int)[0] == v@[b as int]);
            assert(v@.skip(b as int).drop_first() =~= v@.skip(b + 1));
        }
        b = b + 1;
    }
    proof {
        if b < n {
            assert(v@.skip(b as int)[0] == v@[b as int]);
        }
    }
    let ghost t = v@.skip(b as int);
    if !(n - b >= 3 && v[b] == '-' && v[b + 1] == '-' && v[b + 2] == '-') {
        proof {
            if t.len() >= 3 {
                assert(t[0] == v@[b as int] && t[1] == v@[b + 1] && t[2] == v@[b + 2]);
            }
        }
        return None;
    }
    proof {
        assert(t[0] == v@[b as int] && t[1] == v@[b + 1] && t[2] == v@[b + 2]);
    }
    let a0 = b + 3;
    let ghost a = t.skip(3);
    proof {
        assert(a =~= v@.skip(a0 as int));
        if a.len() > 0 {
            assert(a[0] == v@[a0 as int]);
        }
        if a.len() > 1 {
            assert(a[1] == v@[a0 + 1]);
        }
    }
    let start: usize = if a0 < n && v[a0] == '\n' {
        1
    } else if n - a0 > 1 && v[a0] == '\r' && v[a0 + 1] == '\n' {
        2
    } else {
        0
    };
    if start == 0 {
        return None;
    }
    let af = sub_vec(&v, a0 + start, n);
    proof {
        assert(af@ =~= a.skip(start as int));
    }
    match find_close(&af) {
        None => None,
        Some(k) => {
            let m = af.len();
            let e = if m - k >= 5 && af[k + 3] == '\r' && af[k + 4] == '\n' {
                k + 5
            } else if m - k >= 4 && af[k + 3] == '\n' {
                k + 4
            } else {
                k + 3
            };
            proof {
                let rest = af@.skip(k + 3);
                if rest.len() > 0 {
                    assert(rest[0] == af@[k + 3]);
                }
                if rest.len() > 1 {
                    assert(rest[1] == af@[k + 4]);
                }
                assert(strip_eol(rest) =~= af@.subrange(e as int, m as int));
                assert(af@.take(k as int) =~= af@.subrange(0, k as int));
            }
            Some((text_of(&af, 0, k), text_of(&af, e, m)))
        },
    }
}

/// Split a key line into its key and the rest.
fn split_key_exec(line: &String) -> (r: Option<(String, String)>)
    ensures
        match r {
            Some((k, v)) => split_key(line@) == Some((k@, v@)),
            None => split_key(line@) is None,
        },
{
    let v = chars_of(line.as_str());
    let n = v.len();
    let i = find_in(&v, 0, n, ':');
    proof {
        assert(v@.subrange(0, n as int) =~= v@);
    }
    if i >= n {
        return None;
    }
    let (a, b) = trim_bounds(&v, 0, i);
    proof {
        assert(v@.take(i as int) =~= v@.subrange(0, i as int));
    }
    if a == b {
        return None;
    }
    let (c, d) = trim_bounds(&v, i + 1, n);
    proof {
        assert(v@.skip(i + 1) =~= v@.subrange(i + 1, n as int));
    }
    Some((text_of(&v, a, b), text_of(&v, c, d)))
}

/// The indented block that starts at `j`, and how many lines it spans.
fn indented_block_exec(lines: &Vec<String>, j: usize) -> (r: (Vec<String>, usize))
    requires
        j <= lines.len(),
    ensures
        j + r.1 <= lines.len(),
        (views(r.0@), r.1 as int) == indented_block(views(lines@), j as int),
{
    let ghost ls = views(lines@);
    let mut out: Vec<String> = Vec::new();
    let mut k = j;
    proof {
        assert(views(out@) + indented_block(ls, j as int).0 =~= indented_block(ls, j as int).0);
    }
    while k < lines.len()
        invariant
            j <= k <= lines.len(),
            ls == views(lines@),
            indented_block(ls, j as int) == (
                views(out@) + indented_block(ls, k as int).0,
                (k - j) + indented_block(ls, k as int).1,
            ),
        decreases lines.len() - k,
    {
        let lv = chars_of(lines[k].as_str());
        let p = skip_ws(&lv, 0, lv.len());
        proof {
            assert(lv@.subrange(0, lv@.len() as int) =~= lv@);
        }
        if p == lv.len() {
            k = k + 1;
        } else if lv[0] == ' ' || lv[0] == '\t' {
            let ghost before = out@;
            out.push(lines[k].clone());
            proof {
                assert(views(out@) =~= views(before).push(ls[k as int]));
                let r = indented_block(ls, k + 1);
                assert(views(before) + (seq![ls[k as int]] + r.0) =~= views(out@) + r.0);
            }
            k = k + 1;
        } else {
            proof {
                assert(views(out@) + Seq::<Seq<char>>::empty() =~= views(out@));
            }
            return (out, k - j);
        }
    }
    proof {
        assert(views(out@) + Seq::<Seq<char>>::empty() =~= views(out@));
    }
    (out, k - j)
}

/// `s` trimmed, without one pair of matching surrounding quotes.
pub fn unquote(s: &str) -> (r: String)
    ensures
        r@ == unquoted(s@),
{
    let v = chars_of(s);
    let n = v.len();
    let (a, b) = trim_bounds(&v, 0, n);
    proof {
        assert(v@.subrange(0, n as int) =~= v@);
    }
    let ghost t = v@.subrange(a as int, b as int);
    if b - a >= 2 && ((v[a] == '"' && v[b - 1] == '"') || (v[a] == '\'' && v[b - 1] == '\'')) {
        proof {
            assert(t[0] == v@[a as int] && t.last() == v@[b - 1]);
            assert(t.subrange(1, t.len() - 1) =~= v@.subrange(a + 1, b - 1));
        }
        text_of(&v, a + 1, b - 1)
    } else {
        proof {
            if t.len() >= 2 {
                assert(t[0] == v@[a as int] && t.last() == v@[b - 1]);
            }
        }
        text_of(&v, a, b)
    }
}

/// The JSON text of a frontmatter scalar.
pub fn scalar_to_json(raw: &str) -> (r: String)
    ensures
        r@ == scalar_json(raw@),
{
    let v = chars_of(raw);
    if v.len() > 0 && (v[0] == '"' || v[0] == '\'') {
        let u = unquote(raw);
        return crate::json::encode_string(u.as_str());
    }
    if crate::text::str_eq(raw, "true") {
        return String::from_str("true");
    }
    if crate::text::str_eq(raw, "false") {
        return String::from_str("false");
    }
    match crate::text::parse_i64(raw) {
        Some(n) => crate::text::i64_text(n),
        None => crate::json::encode_string(raw),
    }
}

/// A field/message pair.
fn pair(a: &str, b: String) -> (r: (String, String))
    ensures
        r.0@ == a@ && r.1@ == b@,
{
    (String::from_str(a), b)
}

/// The items of a list block, and its warnings.
fn string_list_exec(children: &Vec<String>, key: &String) -> (r: (
    Vec<String>,
    Vec<(String, String)>,
))
    ensures
        (views(r.0@), crate::model::pair_views(r.1@)) == string_list(views(children@), key@),
{
    let ghost cs = views(children@);
    let mut items: Vec<String> = Vec::new();
    let mut warns: Vec<(String, String)> = Vec::new();
    let mut i: usize = 0;
    while i < children.len()
        invariant
            i <= children.len(),
            cs == views(children@),
            (views(items@), crate::model::pair_views(warns@)) == string_list(
                cs.take(i as int),
                key@,
            ),
        decreases children.len() - i,
    {
        let line = &children[i];
        proof {
            assert(cs.take(i + 1).drop_last() =~= cs.take(i as int));
            assert(cs.take(i + 1).last() == line@);
        }
        let v = chars_of(line.as_str());
        let n = v.len();
        let p = skip_ws(&v, 0, n);
        proof {
            assert(v@.subrange(0, n as int) =~= v@);
            let t = trim_start(line@);
            if t.len() > 0 {
                assert(t[0] == v@[p as int]);
            }
            if t.len() > 1 {
                assert(t[1] == v@[p + 1]);
            }
        }
        let ghost ib = items@;
        let ghost wb = warns@;
        if n - p >= 2 && v[p] == '-' && v[p + 1] == ' ' {
            let (a, b) = trim_bounds(&v, p + 2, n);
            let item = unquote(text_of(&v, a, b).as_str());
            proof {
                assert(trim_start(line@).skip(2) =~= v@.subrange(p + 2, n as int));
            }
            items.push(item);
            proof {
                assert(views(items@) =~= views(ib).push(item@));
            }
        } else if (n - p == 1 && v[p] == '-') || n == p {
        } else {
            warns.push(
                pair(
                    key.as_str(),
                    cat2("expected '- item' line, got ", debug_string(line.as_str()).as_str()),
                ),
            );
            proof {
                assert(crate::model::pair_views(warns@) =~= crate::model::pair_views(wb).push(
                    (key@, warns@.last().1@),
                ));
            }
        }
        i = i + 1;
    }
    proof {
        assert(cs.take(children.len() as int) =~= cs);
    }
    (items, warns)
}

/// The entries of the `extra` block, and its warnings.
fn extra_map_exec(children: &Vec<String>) -> (r: (Vec<(String, String)>, Vec<(String, String)>))
    ensures
        (crate::model::pair_views(r.0@), crate::model::pair_views(r.1@)) == extra_map(
            views(children@),
        ),
{
    let ghost cs = views(children@);
    let mut items: Vec<(String, String)> = Vec::new();
    let mut warns: Vec<(String, String)> = Vec::new();
    let mut i: usize = 0;
    while i < children.len()
        invariant
            i <= children.len(),
            cs == views(children@),
            (crate::model::pair_views(items@), crate::model::pair_views(warns@)) == extra_map(
                cs.take(i as int),
            ),
        decreases children.len() - i,
    {
        let line = &children[i];
        proof {
            assert(cs.take(i + 1).drop_last() =~= cs.take(i as int));
            assert(cs.take(i + 1).last() == line@);
        }
        let v = chars_of(line.as_str());
        let n = v.len();
        let p = skip_ws(&v, 0, n);
        proof {
            assert(v@.subrange(0, n as int) =~= v@);
        }
        let ghost t = trim_start(line@);
        let ghost ib = items@;
        let ghost wb = warns@;
        if p < n {
            let c = find_in(&v, p, n, ':');
            if c >= n {
                warns.push(
                    pair(
                        "extra",
                        cat2("expected 'key: value', got ", debug_string(line.as_str()).as_str()),
                    ),
                );
                proof {
                    assert(crate::model::pair_views(warns@) =~= crate::model::pair_views(wb).push(
                        ("extra"@, warns@.last().1@),
                    ));
                }
            } else {
                let (a, b) = trim_bounds(&v, p, c);
                let (x, y) = trim_bounds(&v, c + 1, n);
                let k = text_of(&v, a, b);
                let val = scalar_to_json(text_of(&v, x, y).as_str());
                proof {
                    let ci = find_char(t, ':');
                    assert(ci == c - p);
                    assert(t.take(ci) =~= v@.subrange(p as int, c as int));
                    assert(t.skip(ci + 1) =~= v@.subrange(c + 1, n as int));
                }
                items.push((k, val));
                proof {
                    assert(crate::model::pair_views(items@) =~= crate::model::pair_views(ib).push(
                        (items@.last().0@, items@.last().1@),
                    ));
                }
            }
        }
        i = i + 1;
    }
    proof {
        assert(cs.take(children.len() as int) =~= cs);
    }
    (items, warns)
}

/// The frontmatter read so far.
pub struct ParsedFrontmatter {
    pub name: Option<String>,
    pub summary: Option<String>,
    pub layer: Option<String>,
    pub overrides: Option<String>,
    pub priority: Option<i32>,
    pub mutating: bool,
    pub aliases: Vec<String>,
    pub spellings: Vec<String>,
    pub semantic_aliases: Vec<String>,
    pub best_practices: Vec<String>,
    pub anti_patterns: Vec<String>,
    /// Each `extra` key with its value as JSON text.
    pub extra: Vec<(String, String)>,
    /// Each warning's field and message.
    pub warnings: Vec<(String, String)>,
}

impl View for ParsedFrontmatter {
    type V = FrontmatterView;

    open spec fn view(&self) -> FrontmatterView {
        FrontmatterView {
            name: opt_view(self.name),
            summary: opt_view(self.summary),
            layer: opt_view(self.layer),
            overrides: opt_view(self.overrides),
            priority: self.priority,
            mutating: self.mutating,
            aliases: views(self.aliases@),
            spellings: views(self.spellings@),
            semantic_aliases: views(self.semantic_aliases@),
            best_practices: views(self.best_practices@),
            anti_patterns: views(self.anti_patterns@),
            extra: crate::model::pair_views(self.extra@),
            warnings: crate::model::pair_views(self.warnings@),
        }
    }
}

/// Append `more` to a list of strings.
fn append_strings(v: &mut Vec<String>, more: Vec<String>)
    ensures
        views(final(v)@) == views(old(v)@) + views(more@),
{
    extend_strings(v, more);
}

/// Append `more` to a list of pairs.
fn append_pairs(v: &mut Vec<(String, String)>, more: Vec<(String, String)>)
    ensures
        crate::model::pair_views(final(v)@) == crate::model::pair_views(old(v)@)
            + crate::model::pair_views(more@),
{
    let ghost v0 = crate::model::pair_views(v@);
    let mut i: usize = 0;
    while i < more.len()
        invariant
            i <= more.len(),
            crate::model::pair_views(v@) == v0 + crate::model::pair_views(more@).take(i as int),
        decreases more.len() - i,
    {
        let ghost before = v@;
        let p = (more[i].0.clone(), more[i].1.clone());
        v.push(p);
        proof {
            assert(crate::model::pair_views(v@) =~= crate::model::pair_views(before).push(
                (more@[i as int].0@, more@[i as int].1@),
            ));
            assert(crate::model::pair_views(more@).take(i + 1) =~= crate::model::pair_views(
                more@,
            ).take(i as int).push((more@[i as int].0@, more@[i as int].1@)));
        }
        i = i + 1;
    }
    proof {
        assert(crate::model::pair_views(more@).take(more.len() as int) =~= crate::model::pair_views(
            more@,
        ));
    }
}

impl ParsedFrontmatter {
    /// Nothing read yet.
    fn new() -> (r: Self)
        ensures
            r@ == empty_frontmatter(),
    {
        let r = ParsedFrontmatter {
            name: None,
            summary: None,
            layer: None,
            overrides: None,
            priority: None,
            mutating: false,
            aliases: Vec::new(),
            spellings: Vec::new(),
            semantic_aliases: Vec::new(),
            best_practices: Vec::new(),
            anti_patterns: Vec::new(),
            extra: Vec::new(),
            warnings: Vec::new(),
        };
        proof {
            assert(r@ =~= empty_frontmatter());
        }
        r
    }

    /// Record a warning.
    fn warn(&mut self, field: &str, msg: String)
        ensures
            final(self)@ == fm_warn(old(self)@, field@, msg@),
    {
        let ghost before = self.warnings@;
        self.warnings.push((String::from_str(field), msg));
        proof {
            assert(crate::model::pair_views(self.warnings@) =~= crate::model::pair_views(
                before,
            ).push((field@, msg@)));
            assert(self@ =~= fm_warn(old(self)@, field@, msg@));
        }
    }

    /// Read a `key: value` line.
    fn apply_scalar(&mut self, key: &String, value: &String)
        ensures
            final(self)@ == apply_scalar(old(self)@, key@, value@),
    {
        let u = unquote(value.as_str());
        let k = key.as_str();
        if crate::text::str_eq(k, "name") {
            self.name = Some(u);
        } else if crate::text::str_eq(k, "summary") {
            self.summary = Some(u);
        } else if crate::text::str_eq(k, "layer") {
            self.layer = Some(u);
        } else if crate::text::str_eq(k, "overrides") {
            self.overrides = Some(u);
        } else if crate::text::str_eq(k, "priority") {
            match crate::text::parse_i32(value.as_str()) {
                Ok(n) => {
                    self.priority = Some(n);
                },
                Err(m) => {
                    self.warn("priority", cat2("not an integer: ", m.as_str()));
                },
            }
        } else if crate::text::str_eq(k, "mutating") {
            if crate::text::str_eq(value.as_str(), "true") {
                self.mutating = true;
            } else if crate::text::str_eq(value.as_str(), "false") {
                self.mutating = false;
            } else {
                self.warn(
                    "mutating",
                    cat2("expected 'true' or 'false', got ", debug_string(value.as_str()).as_str()),
                );
            }
        } else if crate::text::str_eq(k, "aliases") || crate::text::str_eq(k, "spellings")
            || crate::text::str_eq(k, "semantic_aliases") || crate::text::str_eq(
            k,
            "best_practices",
        ) || crate::text::str_eq(k, "anti_patterns") || crate::text::str_eq(k, "extra") {
            self.warn(
                k,
                String::from_str(
                    "expected a list/map block (use 'key:' on its own line followed by indented entries)",
                ),
            );
        } else {
            self.warn(k, String::from_str("unknown frontmatter key"));
        }
        proof {
            assert(final(self)@ =~= apply_scalar(old(self)@, key@, value@));
        }
    }

    /// Read a block key and its indented lines.
    fn apply_block(&mut self, key: &String, children: &Vec<String>)
        ensures
            final(self)@ == apply_block(old(self)@, key@, views(children@)),
    {
        let k = key.as_str();
        if crate::text::str_eq(k, "aliases") {
            let (items, warns) = string_list_exec(children, key);
            append_strings(&mut self.aliases, items);
            append_pairs(&mut self.warnings, warns);
        } else if crate::text::str_eq(k, "spellings") {
            let (items, warns) = string_list_exec(children, key);
            append_strings(&mut self.spellings, items);
            append_pairs(&mut self.warnings, warns);
        } else if crate::text::str_eq(k, "semantic_aliases") {
            let (items, warns) = string_list_exec(children, key);
            append_strings(&mut self.semantic_aliases, items);
            append_pairs(&mut self.warnings, warns);
        } else if crate::text::str_eq(k, "best_practices") {
            let (items, warns) = string_list_exec(children, key);
            append_strings(&mut self.best_practices, items);
            append_pairs(&mut self.warnings, warns);
        } else if crate::text::str_eq(k, "anti_patterns") {
            let (items, warns) = string_list_exec(children, key);
            append_strings(&mut self.anti_patterns, items);
            append_pairs(&mut self.warnings, warns);
        } else if crate::text::str_eq(k, "extra") {
            let (items, warns) = extra_map_exec(children);
            append_pairs(&mut self.extra, items);
            append_pairs(&mut self.warnings, warns);
        } else {
            self.warn(k, String::from_str("unknown block key"));
        }
        proof {
            assert(final(self)@ =~= apply_block(old(self)@, key@, views(children@)));
        }
    }
}

/// Read a frontmatter text.
pub fn parse_frontmatter(text: &str) -> (r: ParsedFrontmatter)
    ensures
        r@ == parse_frontmatter_spec(text@),
{
    let lines = crate::text::lines(text);
    let ghost ls = views(lines@);
    let mut st = ParsedFrontmatter::new();
    let mut i: usize = 0;
    while i < lines.len()
        invariant
            i <= lines.len(),
            ls == views(lines@),
            parse_frontmatter_spec(text@) == fm_from(ls, i as int, st@),
        decreases lines.len() - i,
    {
        let rv = chars_of(lines[i].as_str());
        let n = rv.len();
        let e = drop_ws(&rv, 0, n);
        let t0 = skip_ws(&rv, 0, e);
        let ghost line = trim_end(ls[i as int]);
        proof {
            assert(rv@.subrange(0, n as int) =~= rv@);
            assert(line == rv@.subrange(0, e as int));
            let t = trim_start(line);
            if t.len() > 0 {
                assert(t[0] == rv@[t0 as int]);
            }
        }
        if t0 == e || rv[t0] == '#' {
            i = i + 1;
            continue ;
        }
        proof {
            assert(line[0] == rv@[0]);
        }
        let line_s = text_of(&rv, 0, e);
        if rv[0] == ' ' || rv[0] == '\t' {
            st.warn(
                "<indent>",
                cat2("unexpected indented line: ", debug_string(line_s.as_str()).as_str()),
            );
            i = i + 1;
            continue ;
        }
        match split_key_exec(&line_s) {
            None => {
                st.warn(
                    "<line>",
                    cat2("could not parse line: ", debug_string(line_s.as_str()).as_str()),
                );
                i = i + 1;
            },
            Some((key, value)) => {
                if chars_of(value.as_str()).len() == 0 {
                    let (children, consumed) = indented_block_exec(&lines, i + 1);
                    proof {
                        lemma_indented_block_len(ls, i + 1);
                    }
                    st.apply_block(&key, &children);
                    i = i + 1 + consumed;
                } else {
                    st.apply_scalar(&key, &value);
                    i = i + 1;
                }
            },
        }
    }
    st
}

// ── One file ────────────────────────────────────────────────────────────────

/// A command as a file describes it, its strings taken as character
/// sequences and its metadata as a map from key to JSON text.
#[verifier::ext_equal]
pub struct CommandDraft {
    pub canonical: Seq<char>,
    pub aliases: Seq<Seq<char>>,
    pub spellings: Seq<Seq<char>>,
    pub semantic_aliases: Seq<Seq<char>>,
    pub summary: Seq<char>,
    pub description: Seq<char>,
    pub arguments: Seq<ArgumentView>,
    pub flags: Seq<FlagView>,
    pub examples: Seq<(Seq<char>, Seq<char>)>,
    pub best_practices: Seq<Seq<char>>,
    pub anti_patterns: Seq<Seq<char>>,
    pub mutating: bool,
    pub extra: Map<Seq<char>, Seq<char>>,
}

/// A builder holds exactly what the draft describes, with no subcommands,
/// no exclusive groups and no example output.
pub open spec fn builder_holds(b: CommandBuilder, d: CommandDraft) -> bool {
    &&& b.canonical@ == d.canonical
    &&& views(b.aliases@) == d.aliases
    &&& views(b.spellings@) == d.spellings
    &&& views(b.semantic_aliases@) == d.semantic_aliases
    &&& b.summary@ == d.summary
    &&& b.description@ == d.description
    &&& argument_views(b.arguments@) == d.arguments
    &&& flag_views(b.flags@) == d.flags
    &&& example_pairs(b.examples@) == d.examples
    &&& forall|i: int| 0 <= i < b.examples@.len() ==> (#[trigger] b.examples@[i]).output is None
    &&& b.subcommands@.len() == 0
    &&& views(b.best_practices@) == d.best_practices
    &&& views(b.anti_patterns@) == d.anti_patterns
    &&& b.exclusive_groups@.len() == 0
    &&& b.mutating == d.mutating
    &&& crate::model::pairs_map(b.extra@) == d.extra
}

/// A command holds exactly what the draft describes.
pub open spec fn command_holds(c: Command, d: CommandDraft) -> bool {
    &&& c.canonical@ == d.canonical
    &&& views(c.aliases@) == d.aliases
    &&& views(c.spellings@) == d.spellings
    &&& views(c.semantic_aliases@) == d.semantic_aliases
    &&& c.summary@ == d.summary
    &&& c.description@ == d.description
    &&& argument_views(c.arguments@) == d.arguments
    &&& flag_views(c.flags@) == d.flags
    &&& example_pairs(c.examples@) == d.examples
    &&& forall|i: int| 0 <= i < c.examples@.len() ==> (#[trigger] c.examples@[i]).output is None
    &&& c.subcommands@.len() == 0
    &&& views(c.best_practices@) == d.best_practices
    &&& views(c.anti_patterns@) == d.anti_patterns
    &&& c.exclusive_groups@.len() == 0
    &&& c.mutating == d.mutating
    &&& crate::model::pairs_map(c.extra@) == d.extra
}

/// The error `CommandBuilder::build` reports for a builder holding the
/// draft (every such builder gets the same one).
pub open spec fn draft_error(d: CommandDraft) -> Option<BuildErrorView> {
    crate::model::build_error(choose|b: CommandBuilder| builder_holds(b, d))
}

/// `build` reports `draft_error` for every builder that holds the draft.
pub proof fn lemma_draft_error(b: CommandBuilder, d: CommandDraft)
    requires
        builder_holds(b, d),
    ensures
        crate::model::build_error(b) == draft_error(d),
{
    let c = choose|c: CommandBuilder| builder_holds(c, d);
    assert(builder_holds(c, d));
    assert(crate::model::canonical_names(b.subcommands@) =~= crate::model::canonical_names(
        c.subcommands@,
    ));
    assert(crate::model::group_views(b.exclusive_groups@) =~= crate::model::group_views(
        c.exclusive_groups@,
    ));
    crate::model::lemma_build_error_same(b, c);
}

/// The metadata map: each entry inserted in order, a later one replacing an
/// earlier one with the same key.
pub open spec fn extra_entries(s: Seq<(Seq<char>, Seq<char>)>) -> Map<Seq<char>, Seq<char>>
    decreases s.len(),
{
    if s.len() == 0 {
        Map::empty()
    } else {
        extra_entries(s.drop_last()).insert(s.last().0, s.last().1)
    }
}

/// The command that a frontmatter with the name `name` and a body describe.
pub open spec fn file_draft(name: Seq<char>, fm: FrontmatterView, body: Seq<char>) -> CommandDraft {
    let sec = body_sections(crate::text::lines_of(body));
    CommandDraft {
        canonical: name,
        aliases: fm.aliases,
        spellings: fm.spellings,
        semantic_aliases: fm.semantic_aliases,
        summary: match fm.summary {
            Some(x) => x,
            None => seq![],
        },
        description: trim(sec.prelude),
        arguments: arguments_section(sec.arguments).0,
        flags: flags_section(sec.flags).0,
        examples: examples_section(sec.examples).0,
        best_practices: fm.best_practices,
        anti_patterns: fm.anti_patterns,
        mutating: fm.mutating,
        extra: extra_entries(fm.extra),
    }
}

/// The layer a frontmatter `layer:` value names.
pub open spec fn layer_named(l: Seq<char>) -> Option<Layer> {
    if l == "embedded"@ {
        Some(Layer::Embedded)
    } else if l == "user"@ {
        Some(Layer::User)
    } else if l == "project"@ {
        Some(Layer::Project)
    } else if l == "local"@ {
        Some(Layer::Local)
    } else {
        None
    }
}

/// What reading one file yields.
pub enum FileOutcome {
    /// The file is rejected with this message.
    Failed(Seq<char>),
    /// The file is skipped, with these diagnostics.
    Skipped(Seq<DiagnosticView>),
    /// The command, its origin, priority and override target, and the
    /// diagnostics.
    Loaded(CommandDraft, OriginView, i32, Option<Seq<char>>, Seq<DiagnosticView>),
}

/// What reading the file `raw`, found at `path` by the source `source` whose
/// default layer is `default`, yields. A missing frontmatter rejects the
/// file; a missing or blank `name` skips it with a warning; an unknown
/// `layer` falls back to the default with a warning; the command is then
/// built from the frontmatter and the body, and a build error rejects the
/// file. Warnings come in this order: frontmatter, name or layer, then the
/// `## Arguments`, `## Flags` and `## Examples` sections.
pub open spec fn file_outcome(raw: Seq<char>, path: Seq<char>, source: Seq<char>, default: Layer) -> FileOutcome {
    match frontmatter_split(raw) {
        None => FileOutcome::Failed(
            "missing or unterminated frontmatter (expected leading --- ... ---)"@,
        ),
        Some(parts) => {
            let fm = parse_frontmatter_spec(parts.0);
            let ow = OriginView { source, layer: default, path: Some(path) };
            let d1 = fm.warnings.map_values(
                |w: (Seq<char>, Seq<char>)| DiagnosticView::SchemaWarning(ow, w.0, w.1),
            );
            match fm.name {
                Some(name) if !all_ws(name) => {
                    let named = match fm.layer {
                        Some(l) => layer_named(l),
                        None => Some(default),
                    };
                    let layer = match named {
                        Some(x) => x,
                        None => default,
                    };
                    let d2 = match (fm.layer, named) {
                        (Some(l), None) => seq![
                            DiagnosticView::SchemaWarning(
                                ow,
                                "layer"@,
                                "unknown layer '"@ + l + "', falling back to source default '"@
                                    + crate::source::layer_label(default) + "'"@,
                            ),
                        ],
                        _ => seq![],
                    };
                    let o = OriginView { source, layer, path: Some(path) };
                    let sec = body_sections(crate::text::lines_of(parts.1));
                    let d3 = warning_views(o, "Arguments"@, arguments_section(sec.arguments).1)
                        + warning_views(o, "Flags"@, flags_section(sec.flags).1) + warning_views(
                        o,
                        "Examples"@,
                        examples_section(sec.examples).1,
                    );
                    let draft = file_draft(name, fm, parts.1);
                    match draft_error(draft) {
                        Some(e) => FileOutcome::Failed(
                            "Command::build failed for canonical '"@ + name + "': "@
                                + build_error_text(e),
                        ),
                        None => FileOutcome::Loaded(
                            draft,
                            o,
                            match fm.priority {
                                Some(p) => p,
                                None => 0,
                            },
                            fm.overrides,
                            d1 + d2 + d3,
                        ),
                    }
                },
                _ => FileOutcome::Skipped(
                    d1.push(
                        DiagnosticView::SchemaWarning(
                            ow,
                            "name"@,
                            "missing or empty 'name' — file skipped"@,
                        ),
                    ),
                ),
            }
        },
    }
}

/// Whether the diagnostic is a schema warning on the field `field`.
pub open spec fn warns_on(d: DiagnosticView, field: Seq<char>) -> bool {
    d matches DiagnosticView::SchemaWarning(_, f, _) && f == field
}

/// A file with a frontmatter that gives no `name`, or a blank one, is
/// skipped, not rejected, and its diagnostics hold a schema warning on the
/// field `name`.
pub proof fn lemma_nameless_file_skipped(
    raw: Seq<char>,
    path: Seq<char>,
    source: Seq<char>,
    default: Layer,
)
    requires
        frontmatter_split(raw) is Some,
        match parse_frontmatter_spec(frontmatter_split(raw).unwrap().0).name {
            None => true,
            Some(n) => all_ws(n),
        },
    ensures
        file_outcome(raw, path, source, default) matches FileOutcome::Skipped(ds) && exists|i: int|
            0 <= i < ds.len() && #[trigger] warns_on(ds[i], "name"@),
{
    if let FileOutcome::Skipped(ds) = file_outcome(raw, path, source, default) {
        assert(warns_on(ds[ds.len() - 1], "name"@));
    }
}

/// A loaded file's command is named by the frontmatter's `name`; its origin
/// is the reading source and the file's path, at the layer the frontmatter
/// names, or at the source's default layer when it names none or an
/// unknown one (then with a schema warning on the field `layer`); its
/// priority is the frontmatter's, 0 when it gives none; and its override
/// target is the frontmatter's `overrides`.
pub proof fn lemma_loaded_file(raw: Seq<char>, path: Seq<char>, source: Seq<char>, default: Layer)
    requires
        file_outcome(raw, path, source, default) is Loaded,
    ensures
        ({
            let fm = parse_frontmatter_spec(frontmatter_split(raw).unwrap().0);
            let layer = match fm.layer {
                None => default,
                Some(l) => match layer_named(l) {
                    Some(x) => x,
                    None => default,
                },
            };
            file_outcome(raw, path, source, default) matches FileOutcome::Loaded(d, o, p, ov, ds)
                && fm.name == Some(d.canonical) && o == (OriginView {
                source,
                layer,
                path: Some(path),
            }) && p == (match fm.priority {
                Some(x) => x,
                None => 0,
            }) && ov == fm.overrides && (fm.layer matches Some(l) && layer_named(l) is None
                ==> exists|i: int| 0 <= i < ds.len() && #[trigger] warns_on(ds[i], "layer"@))
        }),
{
    let parts = frontmatter_split(raw).unwrap();
    let fm = parse_frontmatter_spec(parts.0);
    let ow = OriginView { source, layer: default, path: Some(path) };
    let d1 = fm.warnings.map_values(
        |w: (Seq<char>, Seq<char>)| DiagnosticView::SchemaWarning(ow, w.0, w.1),
    );
    if let FileOutcome::Loaded(d, o, p, ov, ds) = file_outcome(raw, path, source, default) {
        if fm.layer matches Some(l) && layer_named(l) is None {
            assert(warns_on(ds[d1.len() as int], "layer"@));
        }
    }
}

/// Append one schema warning per field/message pair.
fn push_field_warnings(
    diags: &mut Vec<LoadDiagnostic>,
    origin: &SourceOrigin,
    pairs: &Vec<(String, String)>,
)
    ensures
        crate::source::diagnostic_views(final(diags)@) == crate::source::diagnostic_views(
            old(diags)@,
        ) + crate::model::pair_views(pairs@).map_values(
            |w: (Seq<char>, Seq<char>)| DiagnosticView::SchemaWarning(origin@, w.0, w.1),
        ),
{
    let ghost d0 = crate::source::diagnostic_views(diags@);
    let ghost ps = crate::model::pair_views(pairs@);
    let mut i: usize = 0;
    while i < pairs.len()
        invariant
            i <= pairs.len(),
            ps == crate::model::pair_views(pairs@),
            crate::source::diagnostic_views(diags@) == d0 + ps.take(i as int).map_values(
                |w: (Seq<char>, Seq<char>)| DiagnosticView::SchemaWarning(origin@, w.0, w.1),
            ),
        decreases pairs.len() - i,
    {
        let ghost before = diags@;
        diags.push(
            LoadDiagnostic::SchemaWarning {
                origin: origin.copy(),
                field: pairs[i].0.clone(),
                message: pairs[i].1.clone(),
            },
        );
        proof {
            assert(crate::source::diagnostic_views(diags@) =~= crate::source::diagnostic_views(
                before,
            ).push(diags@.last()@));
            assert(ps.take(i + 1).map_values(
                |w: (Seq<char>, Seq<char>)| DiagnosticView::SchemaWarning(origin@, w.0, w.1),
            ) =~= ps.take(i as int).map_values(
                |w: (Seq<char>, Seq<char>)| DiagnosticView::SchemaWarning(origin@, w.0, w.1),
            ).push(diags@.last()@));
        }
        i = i + 1;
    }
    proof {
        assert(ps.take(pairs.len() as int) =~= ps);
    }
}

/// Read one Markdown command file: `raw` is its text, `path` where it was
/// found, `source_name` the reading source and `default_layer` its layer.
/// `Err` rejects the file; `Ok((None, _))` skips it; otherwise the loaded
/// command comes with the warnings met.
pub fn load_one(raw: &str, path: &str, source_name: &str, default_layer: Layer) -> (r: Result<
    (Option<LoadedCommand>, Vec<LoadDiagnostic>),
    String,
>)
    ensures
        match file_outcome(raw@, path@, source_name@, default_layer) {
            FileOutcome::Failed(m) => r matches Err(e) && e@ == m,
            FileOutcome::Skipped(ds) => r matches Ok((None, d)) && crate::source::diagnostic_views(
                d@,
            ) == ds,
            FileOutcome::Loaded(c, o, p, ov, ds) => r matches Ok((Some(lc), d)) && command_holds(
                lc.command,
                c,
            ) && lc.origin@ == o && lc.priority == p && opt_view(lc.overrides) == ov
                && crate::source::diagnostic_views(d@) == ds,
        },
{
    let (fm_text, body) = match split_frontmatter(raw) {
        None => {
            return Err(
                String::from_str(
                    "missing or unterminated frontmatter (expected leading --- ... ---)",
                ),
            );
        },
        Some(p) => p,
    };
    let fm = parse_frontmatter(fm_text.as_str());
    let ow = SourceOrigin {
        source: String::from_str(source_name),
        layer: default_layer,
        path: Some(String::from_str(path)),
    };
    let mut diags: Vec<LoadDiagnostic> = Vec::new();
    push_field_warnings(&mut diags, &ow, &fm.warnings);
    let ghost d1 = crate::source::diagnostic_views(diags@);
    proof {
        assert(d1 =~= fm@.warnings.map_values(
            |w: (Seq<char>, Seq<char>)| DiagnosticView::SchemaWarning(ow@, w.0, w.1),
        ));
    }
    let name = match &fm.name {
        Some(n) if !crate::text::is_blank(n.as_str()) => n.clone(),
        _ => {
            let ghost before = diags@;
            diags.push(
                LoadDiagnostic::SchemaWarning {
                    origin: ow,
                    field: String::from_str("name"),
                    message: String::from_str("missing or empty 'name' — file skipped"),
                },
            );
            proof {
                assert(crate::source::diagnostic_views(diags@) =~= crate::source::diagnostic_views(
                    before,
                ).push(diags@.last()@));
            }
            return Ok((None, diags));
        },
    };
    let layer = match &fm.layer {
        None => default_layer,
        Some(l) => {
            if crate::text::str_eq(l.as_str(), "embedded") {
                Layer::Embedded
            } else if crate::text::str_eq(l.as_str(), "user") {
                Layer::User
            } else if crate::text::str_eq(l.as_str(), "project") {
                Layer::Project
            } else if crate::text::str_eq(l.as_str(), "local") {
                Layer::Local
            } else {
                let ghost before = diags@;
                let msg = cat5(
                    "unknown layer '",
                    l.as_str(),
                    "', falling back to source default '",
                    default_layer.label().as_str(),
                    "'",
                );
                diags.push(
                    LoadDiagnostic::SchemaWarning {
                        origin: ow.copy(),
                        field: String::from_str("layer"),
                        message: msg,
                    },
                );
                proof {
                    assert(crate::source::diagnostic_views(diags@)
                        =~= crate::source::diagnostic_views(before).push(diags@.last()@));
                }
                default_layer
            }
        },
    };
    let ghost d2 = crate::source::diagnostic_views(diags@);
    let origin = SourceOrigin {
        source: String::from_str(source_name),
        layer,
        path: Some(String::from_str(path)),
    };
    let sections = split_body_sections(body.as_str());
    let mut msgs_a: Vec<String> = Vec::new();
    let args = parse_arguments_section(&sections.arguments, &mut msgs_a);
    let mut msgs_f: Vec<String> = Vec::new();
    let flags = parse_flags_section(&sections.flags, &mut msgs_f);
    let mut msgs_e: Vec<String> = Vec::new();
    let examples = parse_examples_section(&sections.examples, &mut msgs_e);
    proof {
        assert(views(msgs_a@) =~= arguments_section(sections@.arguments).1);
        assert(views(msgs_f@) =~= flags_section(sections@.flags).1);
        assert(views(msgs_e@) =~= examples_section(sections@.examples).1);
    }
    push_warnings(&mut diags, &origin, "Arguments", msgs_a);
    push_warnings(&mut diags, &origin, "Flags", msgs_f);
    push_warnings(&mut diags, &origin, "Examples", msgs_e);
    let desc = crate::text::trim_str(sections.prelude.as_str());
    let mut builder = Command::builder(name.as_str());
    match &fm.summary {
        Some(x) => {
            builder = builder.summary(x.as_str());
        },
        None => {},
    }
    if chars_of(desc.as_str()).len() > 0 {
        builder = builder.description(desc.as_str());
    }
    assert(builder.description@ =~= desc@);
    let ParsedFrontmatter {
        name: _,
        summary: fm_summary,
        layer: fm_layer,
        overrides,
        priority,
        mutating,
        aliases,
        spellings,
        semantic_aliases,
        best_practices,
        anti_patterns,
        extra,
        warnings: _,
    } = fm;
    let ghost fmv = FrontmatterView {
        name: Some(name@),
        summary: opt_view(fm_summary),
        layer: opt_view(fm_layer),
        overrides: opt_view(overrides),
        priority,
        mutating,
        aliases: views(aliases@),
        spellings: views(spellings@),
        semantic_aliases: views(semantic_aliases@),
        best_practices: views(best_practices@),
        anti_patterns: views(anti_patterns@),
        extra: crate::model::pair_views(extra@),
        warnings: seq![],
    };
    let mut builder = CommandBuilder {
        aliases,
        spellings,
        semantic_aliases,
        arguments: args,
        flags,
        examples,
        best_practices,
        anti_patterns,
        ..builder
    };
    let ghost ev = crate::model::pair_views(extra@);
    let mut i: usize = 0;
    proof {
        assert(crate::model::pairs_map(builder.extra@) =~= extra_entries(ev.take(0)));
    }
    while i < extra.len()
        invariant
            i <= extra.len(),
            ev == crate::model::pair_views(extra@),
            crate::model::pairs_map(builder.extra@) == extra_entries(ev.take(i as int)),
            builder.canonical@ == name@,
            views(builder.aliases@) == fmv.aliases,
            views(builder.spellings@) == fmv.spellings,
            views(builder.semantic_aliases@) == fmv.semantic_aliases,
            builder.summary@ == (match fmv.summary {
                Some(x) => x,
                None => seq![],
            }),
            builder.description@ == desc@,
            argument_views(builder.arguments@) == arguments_section(sections@.arguments).0,
            flag_views(builder.flags@) == flags_section(sections@.flags).0,
            example_pairs(builder.examples@) == examples_section(sections@.examples).0,
            forall|j: int|
                0 <= j < builder.examples@.len() ==> (#[trigger] builder.examples@[j]).output is None,
            builder.subcommands@.len() == 0,
            views(builder.best_practices@) == fmv.best_practices,
            views(builder.anti_patterns@) == fmv.anti_patterns,
            builder.exclusive_groups@.len() == 0,
            !builder.mutating,
        decreases extra.len() - i,
    {
        builder = builder.meta(extra[i].0.as_str(), extra[i].1.as_str());
        proof {
            assert(ev.take(i + 1).drop_last() =~= ev.take(i as int));
        }
        i = i + 1;
    }
    proof {
        assert(ev.take(extra.len() as int) =~= ev);
    }
    if mutating {
        builder = builder.mutating();
    }
    let ghost draft = file_draft(name@, fm@, body@);
    proof {
        assert(builder_holds(builder, draft));
        lemma_draft_error(builder, draft);
    }
    match builder.build() {
        Err(e) => Err(cat4("Command::build failed for canonical '", name.as_str(), "': ", e.message().as_str())),
        Ok(cmd) => {
            let mut lc = LoadedCommand::new(cmd, origin);
            match priority {
                Some(p) => {
                    lc = lc.with_priority(p);
                },
                None => {},
            }
            match &overrides {
                Some(ov) => {
                    lc = lc.overriding(ov.as_str());
                },
                None => {},
            }
            Ok((Some(lc), diags))
        },
    }
}

// ── A directory of files ────────────────────────────────────────────────────

/// A source of commands read from the `*.md` files of one directory, each
/// tagged with the source's layer (unless its frontmatter names another).
pub struct MarkdownDirSource {
    /// Name reported in diagnostics.
    pub name: String,
    /// The directory, as displayed in diagnostics.
    pub dir: String,
    /// Layer of the loaded commands.
    pub layer: Layer,
    /// Whether a missing directory is a warning rather than an error.
    pub optional: bool,
}

/// A Markdown file found in the directory.
pub struct MarkdownFile {
    /// The file name, which orders the files.
    pub name: String,
    /// The path, as displayed in diagnostics and origins.
    pub path: String,
    /// The file's text, or the text of the error that reading it gave.
    pub content: Result<String, String>,
}

/// What listing the directory gave.
pub enum DirListing {
    /// The directory could not be read; `not_found` tells whether it is
    /// absent, and `error` is the error's text.
    Unreadable { not_found: bool, error: String },
    /// The texts of the errors met while listing entries, and the `*.md`
    /// files found.
    Listed { entry_errors: Vec<String>, files: Vec<MarkdownFile> },
}

impl MarkdownDirSource {
    /// A source reading `dir` whose commands get `layer`; a missing
    /// directory is an error.
    pub fn new(name: &str, dir: &str, layer: Layer) -> (r: Self)
        ensures
            r.name@ == name@ && r.dir@ == dir@ && r.layer == layer && !r.optional,
    {
        MarkdownDirSource {
            name: String::from_str(name),
            dir: String::from_str(dir),
            layer,
            optional: false,
        }
    }

    /// Make a missing directory a warning rather than an error.
    pub fn optional(self) -> (r: Self)
        ensures
            r == (MarkdownDirSource { optional: true, ..self }),
    {
        MarkdownDirSource { optional: true, ..self }
    }
}

/// The file at `x` sorts before the one at `t[i]`.
pub open spec fn file_after(names: Seq<Seq<char>>, t: Seq<int>, x: int) -> spec_fn(int) -> bool {
    |i: int| crate::text::seq_lt(names[x], names[t[i]])
}

/// The positions `0..n` ordered by name (an insertion sort, stable).
pub open spec fn file_order(names: Seq<Seq<char>>, n: int) -> Seq<int>
    decreases n,
{
    if n <= 0 {
        seq![]
    } else {
        let t = file_order(names, n - 1);
        t.insert(
            crate::model::first_where(0, t.len() as int, file_after(names, t, n - 1)),
            n - 1,
        )
    }
}

/// What a loaded command must hold: the command, its origin, priority and
/// override target.
pub open spec fn loaded_holds(
    lc: LoadedCommand,
    x: (CommandDraft, OriginView, i32, Option<Seq<char>>),
) -> bool {
    command_holds(lc.command, x.0) && lc.origin@ == x.1 && lc.priority == x.2 && opt_view(
        lc.overrides,
    ) == x.3
}

/// What one file contributes: a command, if it loads, and diagnostics.
pub open spec fn file_result(
    source: Seq<char>,
    layer: Layer,
    path: Seq<char>,
    content: Result<Seq<char>, Seq<char>>,
) -> (Option<(CommandDraft, OriginView, i32, Option<Seq<char>>)>, Seq<DiagnosticView>) {
    match content {
        Err(e) => (None, seq![DiagnosticView::SourceError(source, Some(path), "read failed: "@ + e)]),
        Ok(raw) => match file_outcome(raw, path, source, layer) {
            FileOutcome::Failed(m) => (None, seq![DiagnosticView::SourceError(source, Some(path), m)]),
            FileOutcome::Skipped(ds) => (None, ds),
            FileOutcome::Loaded(c, o, p, ov, ds) => (Some((c, o, p, ov)), ds),
        },
    }
}

/// The view of a file's content.
pub open spec fn content_view(c: Result<String, String>) -> Result<Seq<char>, Seq<char>> {
    match c {
        Ok(t) => Ok(t@),
        Err(e) => Err(e@),
    }
}

/// The commands and diagnostics of the files at the positions `order`.
pub open spec fn files_result(
    source: Seq<char>,
    layer: Layer,
    files: Seq<MarkdownFile>,
    order: Seq<int>,
) -> (Seq<(CommandDraft, OriginView, i32, Option<Seq<char>>)>, Seq<DiagnosticView>)
    decreases order.len(),
{
    if order.len() == 0 {
        (seq![], seq![])
    } else {
        let prev = files_result(source, layer, files, order.drop_last());
        let f = files[order.last()];
        let cur = file_result(source, layer, f.path@, content_view(f.content));
        (
            match cur.0 {
                Some(x) => prev.0.push(x),
                None => prev.0,
            },
            prev.1 + cur.1,
        )
    }
}

/// The names of the files.
pub open spec fn file_names(files: Seq<MarkdownFile>) -> Seq<Seq<char>> {
    files.map_values(|f: MarkdownFile| f.name@)
}

/// What loading a listed directory yields: for an unreadable directory, a
/// warning (when the source is optional and the directory absent) or a
/// source error; otherwise a source error per listing error, then the
/// files' commands and diagnostics, the files taken in name order.
pub open spec fn listing_result(src: MarkdownDirSource, listing: DirListing) -> (
    Seq<(CommandDraft, OriginView, i32, Option<Seq<char>>)>,
    Seq<DiagnosticView>,
) {
    match listing {
        DirListing::Unreadable { not_found, error } => if src.optional && not_found {
            (
                seq![],
                seq![
                    DiagnosticView::SchemaWarning(
                        OriginView { source: src.name@, layer: src.layer, path: Some(src.dir@) },
                        "<directory>"@,
                        "optional directory absent: "@ + error@,
                    ),
                ],
            )
        } else {
            (
                seq![],
                seq![
                    DiagnosticView::SourceError(
                        src.name@,
                        Some(src.dir@),
                        "read_dir failed: "@ + error@,
                    ),
                ],
            )
        },
        DirListing::Listed { entry_errors, files } => {
            let r = files_result(
                src.name@,
                src.layer,
                files@,
                file_order(file_names(files@), files@.len() as int),
            );
            (
                r.0,
                views(entry_errors@).map_values(
                    |e: Seq<char>|
                        DiagnosticView::SourceError(
                            src.name@,
                            Some(src.dir@),
                            "read_dir entry failed: "@ + e,
                        ),
                ) + r.1,
            )
        },
    }
}

/// The positions of `files` ordered by name.
fn file_order_exec(files: &Vec<MarkdownFile>) -> (r: Vec<usize>)
    ensures
        crate::source::ints(r@) == file_order(file_names(files@), files@.len() as int),
        forall|i: int| 0 <= i < r@.len() ==> (#[trigger] r@[i]) < files@.len(),
        r@.len() == files@.len(),
{
    let ghost names = file_names(files@);
    let mut out: Vec<usize> = Vec::new();
    let mut k: usize = 0;
    while k < files.len()
        invariant
            k <= files@.len(),
            names == file_names(files@),
            crate::source::ints(out@) == file_order(names, k as int),
            forall|i: int| 0 <= i < out@.len() ==> (#[trigger] out@[i]) < k,
            out@.len() == k,
        decreases files.len() - k,
    {
        let ghost t = crate::source::ints(out@);
        let mut p: usize = 0;
        while p < out.len() && !crate::text::str_lt(
            files[k].name.as_str(),
            files[out[p]].name.as_str(),
        )
            invariant
                p <= out@.len(),
                k < files@.len(),
                t == crate::source::ints(out@),
                names == file_names(files@),
                forall|i: int| 0 <= i < out@.len() ==> (#[trigger] out@[i]) < k,
                forall|m: int| 0 <= m < p ==> !(#[trigger] file_after(names, t, k as int)(m)),
            decreases out.len() - p,
        {
            proof {
                assert(t[p as int] == out@[p as int] as int);
                assert(names[k as int] == files@[k as int].name@);
                assert(names[out@[p as int] as int] == files@[out@[p as int] as int].name@);
            }
            p = p + 1;
        }
        proof {
            if p < out@.len() {
                assert(t[p as int] == out@[p as int] as int);
                assert(names[k as int] == files@[k as int].name@);
                assert(names[out@[p as int] as int] == files@[out@[p as int] as int].name@);
                crate::model::lemma_first_where_at(
                    0,
                    t.len() as int,
                    file_after(names, t, k as int),
                    p as int,
                );
            } else {
                crate::model::lemma_first_where_none(0, t.len() as int, file_after(names, t, k as int));
            }
        }
        out.insert(p, k);
        proof {
            assert(crate::source::ints(out@) =~= t.insert(p as int, k as int));
        }
        k = k + 1;
    }
    out
}

impl MarkdownDirSource {
    /// Load the commands of the directory from what listing it gave; see
    /// [`listing_result`].
    pub fn load_listing(&self, listing: DirListing) -> (r: crate::source::SourceLoad)
        ensures
            crate::source::diagnostic_views(r.diagnostics@) == listing_result(*self, listing).1,
            r.commands@.len() == listing_result(*self, listing).0.len(),
            forall|i: int|
                0 <= i < r.commands@.len() ==> loaded_holds(
                    #[trigger] r.commands@[i],
                    listing_result(*self, listing).0[i],
                ),
    {
        let ghost lv = listing;
        let mut commands: Vec<LoadedCommand> = Vec::new();
        let mut diags: Vec<LoadDiagnostic> = Vec::new();
        match listing {
            DirListing::Unreadable { not_found, error } => {
                if self.optional && not_found {
                    diags.push(
                        LoadDiagnostic::SchemaWarning {
                            origin: SourceOrigin {
                                source: self.name.clone(),
                                layer: self.layer,
                                path: Some(self.dir.clone()),
                            },
                            field: String::from_str("<directory>"),
                            message: cat2("optional directory absent: ", error.as_str()),
                        },
                    );
                } else {
                    diags.push(
                        LoadDiagnostic::SourceError {
                            source: self.name.clone(),
                            path: Some(self.dir.clone()),
                            message: cat2("read_dir failed: ", error.as_str()),
                        },
                    );
                }
                proof {
                    assert(crate::source::diagnostic_views(diags@) =~= listing_result(
                        *self,
                        lv,
                    ).1);
                }
                crate::source::SourceLoad { commands, diagnostics: diags }
            },
            DirListing::Listed { entry_errors, files } => {
                let ghost ees = views(entry_errors@);
                let mut i: usize = 0;
                while i < entry_errors.len()
                    invariant
                        i <= entry_errors.len(),
                        ees == views(entry_errors@),
                        crate::source::diagnostic_views(diags@) == ees.take(i as int).map_values(
                            |e: Seq<char>|
                                DiagnosticView::SourceError(
                                    self.name@,
                                    Some(self.dir@),
                                    "read_dir entry failed: "@ + e,
                                ),
                        ),
                    decreases entry_errors.len() - i,
                {
                    let ghost before = diags@;
                    diags.push(
                        LoadDiagnostic::SourceError {
                            source: self.name.clone(),
                            path: Some(self.dir.clone()),
                            message: cat2("read_dir entry failed: ", entry_errors[i].as_str()),
                        },
                    );
                    proof {
                        assert(crate::source::diagnostic_views(diags@)
                            =~= crate::source::diagnostic_views(before).push(diags@.last()@));
                        assert(ees.take(i + 1).map_values(
                            |e: Seq<char>|
                                DiagnosticView::SourceError(
                                    self.name@,
                                    Some(self.dir@),
                                    "read_dir entry failed: "@ + e,
                                ),
                        ) =~= ees.take(i as int).map_values(
                            |e: Seq<char>|
                                DiagnosticView::SourceError(
                                    self.name@,
                                    Some(self.dir@),
                                    "read_dir entry failed: "@ + e,
                                ),
                        ).push(diags@.last()@));
                    }
                    i = i + 1;
                }
                proof {
                    assert(ees.take(entry_errors.len() as int) =~= ees);
                }
                let ghost d0 = crate::source::diagnostic_views(diags@);
                let order = file_order_exec(&files);
                let ghost ord = crate::source::ints(order@);
                let mut j: usize = 0;
                while j < order.len()
                    invariant
                        j <= order.len(),
                        order@.len() == files@.len(),
                        ord == crate::source::ints(order@),
                        forall|q: int| 0 <= q < order@.len() ==> (#[trigger] order@[q]) < files@.len(),
                        crate::source::diagnostic_views(diags@) == d0 + files_result(
                            self.name@,
                            self.layer,
                            files@,
                            ord.take(j as int),
                        ).1,
                        commands@.len() == files_result(
                            self.name@,
                            self.layer,
                            files@,
                            ord.take(j as int),
                        ).0.len(),
                        forall|q: int|
                            0 <= q < commands@.len() ==> loaded_holds(
                                #[trigger] commands@[q],
                                files_result(self.name@, self.layer, files@, ord.take(j as int)).0[q],
                            ),
                    decreases order.len() - j,
                {
                    let f = &files[order[j]];
                    proof {
                        assert(ord.take(j + 1).drop_last() =~= ord.take(j as int));
                        assert(ord.take(j + 1).last() == order@[j as int] as int);
                    }
                    let ghost prev = files_result(self.name@, self.layer, files@, ord.take(j as int));
                    let ghost cur = file_result(self.name@, self.layer, f.path@, content_view(f.content));
                    let ghost dbefore = diags@;
                    let ghost cbefore = commands@;
                    match &f.content {
                        Err(e) => {
                            diags.push(
                                LoadDiagnostic::SourceError {
                                    source: self.name.clone(),
                                    path: Some(f.path.clone()),
                                    message: cat2("read failed: ", e.as_str()),
                                },
                            );
                            proof {
                                assert(crate::source::diagnostic_views(diags@)
                                    =~= crate::source::diagnostic_views(dbefore) + cur.1);
                            }
                        },
                        Ok(raw) => {
                            match load_one(raw.as_str(), f.path.as_str(), self.name.as_str(), self.layer) {
                                Ok((Some(loaded), ws)) => {
                                    let mut ws = ws;
                                    diags.append(&mut ws);
                                    commands.push(loaded);
                                    proof {
                                        assert(crate::source::diagnostic_views(diags@)
                                            =~= crate::source::diagnostic_views(dbefore) + cur.1);
                                    }
                                },
                                Ok((None, ws)) => {
                                    let mut ws = ws;
                                    diags.append(&mut ws);
                                    proof {
                                        assert(crate::source::diagnostic_views(diags@)
                                            =~= crate::source::diagnostic_views(dbefore) + cur.1);
                                    }
                                },
                                Err(msg) => {
                                    diags.push(
                                        LoadDiagnostic::SourceError {
                                            source: self.name.clone(),
                                            path: Some(f.path.clone()),
                                            message: msg,
                                        },
                                    );
                                    proof {
                                        assert(crate::source::diagnostic_views(diags@)
                                            =~= crate::source::diagnostic_views(dbefore) + cur.1);
                                    }
                                },
                            }
                        },
                    }
                    proof {
                        assert(d0 + prev.1 + cur.1 =~= d0 + (prev.1 + cur.1));
                    }
                    j = j + 1;
                }
                proof {
                    assert(ord.take(order.len() as int) =~= ord);
                }
                crate::source::SourceLoad { commands, diagnostics: diags }
            },
        }
    }
}

// ── Where the directories are ───────────────────────────────────────────────

/// The path `base` joined with `part` (`Path::join`).
pub uninterp spec fn joined_path(base: Seq<char>, part: Seq<char>) -> Seq<char>;

/// The parent of a path (`Path::parent`), if it has one.
pub uninterp spec fn parent_of(p: Seq<char>) -> Option<Seq<char>>;

/// `Path::join`, whose result is named `joined_path`.
#[verifier::external_body]
fn join_path(base: &str, part: &str) -> (r: String)
    ensures
        r@ == joined_path(base@, part@),
{
    std::path::Path::new(base).join(part).to_string_lossy().into_owned()
}

/// `Path::parent`, named `parent_of`. The standard library documents the
/// parent as the path without its final component, so it is shorter.
#[verifier::external_body]
fn parent_path(p: &str) -> (r: Option<String>)
    ensures
        match r {
            Some(q) => parent_of(p@) == Some(q@) && q@.len() < p@.len(),
            None => parent_of(p@) is None,
        },
{
    match std::path::Path::new(p).parent() {
        Some(q) => Some(q.to_string_lossy().into_owned()),
        None => None,
    }
}

/// `dir/.<app>/commands`.
pub open spec fn project_candidate(app: Seq<char>, dir: Seq<char>) -> Seq<char> {
    joined_path(joined_path(dir, seq!['.'] + app), "commands"@)
}

/// The `k`-th ancestor of `p`: `p` itself, then each parent in turn.
pub open spec fn ancestor(p: Seq<char>, k: nat) -> Option<Seq<char>>
    decreases k,
{
    if k == 0 {
        Some(p)
    } else {
        match ancestor(p, (k - 1) as nat) {
            Some(q) => parent_of(q),
            None => None,
        }
    }
}

/// The probe may answer `b` for the path `p`.
pub open spec fn probe_says<F: Fn(&str) -> bool>(is_dir: F, p: Seq<char>, b: bool) -> bool {
    exists|s: &str| s@ == p && #[trigger] is_dir.ensures((s,), b)
}

/// Walk up from `start` looking for a `.<app_name>/commands` directory:
/// the candidate under each ancestor, nearest first, is tested with
/// `is_dir`, and the first that passes is returned.
pub fn find_project_dir<F: Fn(&str) -> bool>(app_name: &str, start: &str, is_dir: F) -> (r: Option<
    String,
>)
    requires
        forall|s: &str| #[trigger] is_dir.requires((s,)),
    ensures
        match r {
            Some(c) => exists|k: nat|
                {
                    &&& #[trigger] ancestor(start@, k) matches Some(d)
                    &&& c@ == project_candidate(app_name@, d)
                    &&& probe_says(is_dir, c@, true)
                    &&& forall|j: nat|
                        j < k ==> (#[trigger] ancestor(start@, j) matches Some(e) && probe_says(
                            is_dir,
                            project_candidate(app_name@, e),
                            false,
                        ))
                },
            None => exists|k: nat|
                {
                    &&& #[trigger] ancestor(start@, k) is None
                    &&& forall|j: nat|
                        j < k ==> (#[trigger] ancestor(start@, j) matches Some(e) && probe_says(
                            is_dir,
                            project_candidate(app_name@, e),
                            false,
                        ))
                },
        },
{
    let mut marker = String::new();
    crate::text::push_char(&mut marker, '.');
    marker.append(app_name);
    let mut cur: String = String::from_str(start);
    let ghost mut k: nat = 0;
    loop
        invariant
            forall|s: &str| #[trigger] is_dir.requires((s,)),
            ancestor(start@, k) == Some(cur@),
            marker@ == seq!['.'] + app_name@,
            forall|j: nat|
                j < k ==> (#[trigger] ancestor(start@, j) matches Some(e) && probe_says(
                    is_dir,
                    project_candidate(app_name@, e),
                    false,
                )),
        decreases cur@.len(),
    {
        let candidate = join_path(join_path(cur.as_str(), marker.as_str()).as_str(), "commands");
        let found = is_dir(candidate.as_str());
        proof {
            assert(probe_says(is_dir, candidate@, found));
        }
        if found {
            return Some(candidate);
        }
        match parent_path(cur.as_str()) {
            Some(p) => {
                proof {
                    assert forall|j: nat| j < k + 1 implies (#[trigger] ancestor(start@, j) matches Some(e)
                        && probe_says(is_dir, project_candidate(app_name@, e), false)) by {
                        if j == k {
                        }
                    }
                    k = k + 1;
                }
                cur = p;
            },
            None => {
                proof {
                    assert forall|j: nat| j < k + 1 implies (#[trigger] ancestor(start@, j) matches Some(e)
                        && probe_says(is_dir, project_candidate(app_name@, e), false)) by {
                        if j == k {
                        }
                    }
                    assert(ancestor(start@, k + 1) is None);
                }
                return None;
            },
        }
    }
}

/// The environment that locates the user-wide configuration directory.
pub struct ConfigEnv {
    /// `XDG_CONFIG_HOME`.
    pub xdg_config_home: Option<String>,
    /// `APPDATA`, consulted on Windows only (`None` elsewhere).
    pub appdata: Option<String>,
    /// `HOME`.
    pub home: Option<String>,
    /// `USERPROFILE`.
    pub userprofile: Option<String>,
}

/// Where the user-wide commands of `app` live: under a non-empty
/// `XDG_CONFIG_HOME`, else under a non-empty `APPDATA`, else under
/// `HOME/.config` (`USERPROFILE` when `HOME` is unset); `None` when the home
/// directory is unset or empty.
pub open spec fn user_config_path(app: Seq<char>, env: ConfigEnv) -> Option<Seq<char>> {
    match env.xdg_config_home {
        Some(x) if x@.len() > 0 => Some(joined_path(joined_path(x@, app), "commands"@)),
        _ => match env.appdata {
            Some(a) if a@.len() > 0 => Some(joined_path(joined_path(a@, app), "commands"@)),
            _ => {
                let home = match env.home {
                    Some(h) => Some(h@),
                    None => opt_view(env.userprofile),
                };
                match home {
                    Some(h) if h.len() > 0 => Some(
                        joined_path(joined_path(joined_path(h, ".config"@), app), "commands"@),
                    ),
                    _ => None,
                }
            },
        },
    }
}

/// Resolve the user-wide commands directory of `app_name` from `env`.
pub fn user_config_dir(app_name: &str, env: &ConfigEnv) -> (r: Option<String>)
    ensures
        opt_view(r) == user_config_path(app_name@, *env),
{
    match &env.xdg_config_home {
        Some(x) => {
            if chars_of(x.as_str()).len() > 0 {
                return Some(join_path(join_path(x.as_str(), app_name).as_str(), "commands"));
            }
        },
        None => {},
    }
    match &env.appdata {
        Some(a) => {
            if chars_of(a.as_str()).len() > 0 {
                return Some(join_path(join_path(a.as_str(), app_name).as_str(), "commands"));
            }
        },
        None => {},
    }
    let home = match &env.home {
        Some(h) => h,
        None => match &env.userprofile {
            Some(u) => u,
            None => {
                return None;
            },
        },
    };
    if chars_of(home.as_str()).len() == 0 {
        return None;
    }
    let config = join_path(home.as_str(), ".config");
    Some(join_path(join_path(config.as_str(), app_name).as_str(), "commands"))
}

impl MarkdownDirSource {
    /// The optional user-layer source named `user-config` rooted at the
    /// user-wide commands directory of `app_name`, when one resolves.
    pub fn user_config(app_name: &str, env: &ConfigEnv) -> (r: Option<Self>)
        ensures
            match user_config_path(app_name@, *env) {
                Some(d) => r matches Some(s) && s.name@ == "user-config"@ && s.dir@ == d
                    && s.layer == Layer::User && s.optional,
                None => r is None,
            },
    {
        match user_config_dir(app_name, env) {
            Some(dir) => Some(MarkdownDirSource::new("user-config", dir.as_str(), Layer::User).optional()),
            None => None,
        }
    }

    /// The optional project-layer source named `project-root` rooted at the
    /// nearest `.<app_name>/commands` directory above `cwd` (see
    /// [`find_project_dir`]): the first candidate, walking up, that `is_dir`
    /// accepts; `None` when there is no working directory or every candidate
    /// up to the root was refused.
    pub fn project_root<F: Fn(&str) -> bool>(app_name: &str, cwd: Option<&str>, is_dir: F) -> (r:
        Option<Self>)
        requires
            forall|s: &str| #[trigger] is_dir.requires((s,)),
        ensures
            cwd is None ==> r is None,
            r matches Some(s) ==> {
                &&& s.name@ == "project-root"@
                &&& s.layer == Layer::Project
                &&& s.optional
                &&& cwd matches Some(c)
                &&& exists|k: nat|
                    {
                        &&& #[trigger] ancestor(c@, k) matches Some(d)
                        &&& s.dir@ == project_candidate(app_name@, d)
                        &&& probe_says(is_dir, s.dir@, true)
                        &&& forall|j: nat|
                            j < k ==> (#[trigger] ancestor(c@, j) matches Some(e) && probe_says(
                                is_dir,
                                project_candidate(app_name@, e),
                                false,
                            ))
                    }
            },
            r is None ==> (cwd matches Some(c) ==> exists|k: nat|
                {
                    &&& #[trigger] ancestor(c@, k) is None
                    &&& forall|j: nat|
                        j < k ==> (#[trigger] ancestor(c@, j) matches Some(e) && probe_says(
                            is_dir,
                            project_candidate(app_name@, e),
                            false,
                        ))
                }),
    {
        let c = match cwd {
            Some(c) => c,
            None => {
                return None;
            },
        };
        match find_project_dir(app_name, c, is_dir) {
            Some(dir) => Some(
                MarkdownDirSource::new("project-root", dir.as_str(), Layer::Project).optional(),
            ),
            None => None,
        }
    }
}

} // verus!
