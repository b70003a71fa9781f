//! Parsing an argument vector against the command tree.
//!
//! The first word names a top-level command; following words descend into
//! subcommands while they resolve. The remaining tokens are consumed in
//! order: words become positional values, long and short flags are matched
//! against the command's flags (with `--no-name` negation for boolean flags,
//! inline or following values for value-taking flags, and clusters such as
//! `-abc` of boolean short flags). Positional values are then bound to the
//! declared arguments, environment fallbacks and exclusivity groups are
//! applied, required flags are checked and defaults filled in.
use vstd::prelude::*;
use crate::flag::Flag;
use crate::json::{decode_string_list, encode_string_list, json_list_parse, json_list_text};
use crate::model::{
    assoc_insert, assoc_lookup, first_where, lemma_first_where_at, lemma_first_where_none,
    lemma_first_where_spec, pairs_map, Argument, Command,
};
use crate::resolver::{resolution, Resolution, ResolveError, ResolveErrorView, Resolver};
use crate::text::{
    append_to, chars_of, decimal, parse_u64, push_char, starts_with, string_of_range, u64_text,
    u64_value, views,
};
use crate::tokenizer::{arg_views, opt_chars, token_views, tokenize, tokenize_spec, Token, TokenView};

verus! {

broadcast use vstd::string::group_string_axioms;

/// Errors produced by parsing.
#[derive(Debug, PartialEq, Eq)]
pub enum ParseError {
    /// The argument vector held no command name.
    NoCommand,
    /// The command or a subcommand word did not resolve.
    Resolve(ResolveError),
    /// A required positional argument was not supplied.
    MissingArgument(String),
    /// More positional values were supplied than the command declares.
    UnexpectedArgument(String),
    /// A required flag was not supplied.
    MissingFlag(String),
    /// A value-taking flag had no value.
    FlagMissingValue { name: String },
    /// A flag (with its dashes) that the command does not define.
    UnknownFlag(String),
    /// A word after a command that only has subcommands matched none of them.
    UnknownSubcommand { parent: String, got: String },
    /// A flag value outside the flag's allowed choices.
    InvalidChoice { flag: String, value: String, choices: Vec<String> },
    /// Several flags of one exclusive group were given (with `--` prefixes).
    MutuallyExclusive { flags: Vec<String> },
}

/// [`ParseError`] with its strings taken as character sequences.
pub enum ParseErrorView {
    NoCommand,
    Resolve(ResolveErrorView),
    MissingArgument(Seq<char>),
    UnexpectedArgument(Seq<char>),
    MissingFlag(Seq<char>),
    FlagMissingValue(Seq<char>),
    UnknownFlag(Seq<char>),
    UnknownSubcommand(Seq<char>, Seq<char>),
    InvalidChoice(Seq<char>, Seq<char>, Seq<Seq<char>>),
    MutuallyExclusive(Seq<Seq<char>>),
}

/// The `Debug` rendering of a list of strings: each string's rendering,
/// separated by `, `, in brackets.
pub open spec fn debug_list(items: Seq<Seq<char>>) -> Seq<char> {
    "["@ + crate::text::join(items.map_values(|s: Seq<char>| crate::text::debug_text(s)), ", "@)
        + "]"@
}

/// The text of a parse error.
pub open spec fn parse_error_text(e: ParseErrorView) -> Seq<char> {
    match e {
        ParseErrorView::NoCommand => "no command provided"@,
        ParseErrorView::Resolve(r) => crate::resolver::resolve_error_message(r),
        ParseErrorView::MissingArgument(s) => "missing required argument: "@ + s,
        ParseErrorView::UnexpectedArgument(s) => "unexpected argument: "@ + s,
        ParseErrorView::MissingFlag(s) => "missing required flag: --"@ + s,
        ParseErrorView::FlagMissingValue(n) => "flag --"@ + n + " requires a value"@,
        ParseErrorView::UnknownFlag(s) => "unknown flag: "@ + s,
        ParseErrorView::UnknownSubcommand(parent, got) => "unknown subcommand `"@ + got
            + "` for `"@ + parent + "`"@,
        ParseErrorView::InvalidChoice(flag, value, choices) => "invalid value `"@ + value
            + "` for `--"@ + flag + "`: expected one of "@ + debug_list(choices),
        ParseErrorView::MutuallyExclusive(flags) => "flags "@ + debug_list(flags)
            + " are mutually exclusive — provide at most one"@,
    }
}

/// The `Debug` rendering of a list of strings.
fn debug_list_exec(items: &Vec<String>) -> (r: String)
    ensures
        r@ == debug_list(views(items@)),
{
    let mut parts: Vec<String> = Vec::new();
    let mut i: usize = 0;
    while i < items.len()
        invariant
            i <= items.len(),
            views(parts@) == views(items@).take(i as int).map_values(
                |s: Seq<char>| crate::text::debug_text(s),
            ),
        decreases items.len() - i,
    {
        let ghost before = parts@;
        parts.push(crate::text::debug_string(items[i].as_str()));
        proof {
            assert(views(parts@) =~= views(before).push(crate::text::debug_text(items@[i as int]@)));
            assert(views(items@).take(i + 1).map_values(|s: Seq<char>| crate::text::debug_text(s))
                =~= views(items@).take(i as int).map_values(
                |s: Seq<char>| crate::text::debug_text(s),
            ).push(crate::text::debug_text(items@[i as int]@)));
        }
        i = i + 1;
    }
    proof {
        assert(views(items@).take(items.len() as int) =~= views(items@));
    }
    let mut r = String::from_str("[");
    let j = crate::text::join_strings(&parts, &String::from_str(", "));
    r.append(j.as_str());
    r.append("]");
    r
}

impl ParseError {
    /// The human-readable text, e.g. `missing required argument: env`.
    pub fn message(&self) -> (r: String)
        ensures
            r@ == parse_error_text(self@),
    {
        match self {
            ParseError::NoCommand => String::from_str("no command provided"),
            ParseError::Resolve(e) => e.message(),
            ParseError::MissingArgument(s) => {
                let mut r = String::from_str("missing required argument: ");
                r.append(s.as_str());
                r
            },
            ParseError::UnexpectedArgument(s) => {
                let mut r = String::from_str("unexpected argument: ");
                r.append(s.as_str());
                r
            },
            ParseError::MissingFlag(s) => {
                let mut r = String::from_str("missing required flag: --");
                r.append(s.as_str());
                r
            },
            ParseError::FlagMissingValue { name } => {
                let mut r = String::from_str("flag --");
                r.append(name.as_str());
                r.append(" requires a value");
                r
            },
            ParseError::UnknownFlag(s) => {
                let mut r = String::from_str("unknown flag: ");
                r.append(s.as_str());
                r
            },
            ParseError::UnknownSubcommand { parent, got } => {
                let mut r = String::from_str("unknown subcommand `");
                r.append(got.as_str());
                r.append("` for `");
                r.append(parent.as_str());
                r.append("`");
                r
            },
            ParseError::InvalidChoice { flag, value, choices } => {
                let mut r = String::from_str("invalid value `");
                r.append(value.as_str());
                r.append("` for `--");
                r.append(flag.as_str());
                r.append("`: expected one of ");
                r.append(debug_list_exec(choices).as_str());
                r
            },
            ParseError::MutuallyExclusive { flags } => {
                let mut r = String::from_str("flags ");
                r.append(debug_list_exec(flags).as_str());
                r.append(" are mutually exclusive — provide at most one");
                r
            },
        }
    }
}

impl View for ParseError {
    type V = ParseErrorView;

    open spec fn view(&self) -> ParseErrorView {
        match self {
            ParseError::NoCommand => ParseErrorView::NoCommand,
            ParseError::Resolve(e) => ParseErrorView::Resolve(e@),
            ParseError::MissingArgument(s) => ParseErrorView::MissingArgument(s@),
            ParseError::UnexpectedArgument(s) => ParseErrorView::UnexpectedArgument(s@),
            ParseError::MissingFlag(s) => ParseErrorView::MissingFlag(s@),
            ParseError::FlagMissingValue { name } => ParseErrorView::FlagMissingValue(name@),
            ParseError::UnknownFlag(s) => ParseErrorView::UnknownFlag(s@),
            ParseError::UnknownSubcommand { parent, got } => ParseErrorView::UnknownSubcommand(
                parent@,
                got@,
            ),
            ParseError::InvalidChoice { flag, value, choices } => ParseErrorView::InvalidChoice(
                flag@,
                value@,
                views(choices@),
            ),
            ParseError::MutuallyExclusive { flags } => ParseErrorView::MutuallyExclusive(
                views(flags@),
            ),
        }
    }
}

// ── Consuming the tokens after the command words ────────────────────────────

/// Positional values seen so far and the flag map built so far.
pub struct ParseState {
    pub positionals: Seq<Seq<char>>,
    pub flags: Map<Seq<char>, Seq<char>>,
}

/// The value stored for `k`, if any.
pub open spec fn lookup(m: Map<Seq<char>, Seq<char>>, k: Seq<char>) -> Option<Seq<char>> {
    if m.contains_key(k) {
        Some(m[k])
    } else {
        None
    }
}

/// The JSON list of a repeatable value-taking flag after one more value: the
/// stored list (or the stored text as a one-element list when it is not a
/// JSON list) with `val` appended.
pub open spec fn appended_list(prev: Option<Seq<char>>, val: Seq<char>) -> Seq<char> {
    match prev {
        None => json_list_text(seq![val]),
        Some(e) => json_list_text(
            match json_list_parse(e) {
                Some(a) => a,
                None => seq![e],
            }.push(val),
        ),
    }
}

/// The count of a repeatable boolean flag after one more occurrence: the
/// stored count (0 when absent or not a number) plus one, saturating at the
/// largest `u64`.
pub open spec fn bumped_count(prev: Option<Seq<char>>) -> Seq<char> {
    let c: int = match prev {
        Some(v) => match u64_value(v) {
            Some(n) => n as int,
            None => 0,
        },
        None => 0,
    };
    decimal(
        if c < u64::MAX {
            c + 1
        } else {
            c
        },
    )
}

/// The error for giving `val` to flag `f`, when `f` restricts its values and
/// `val` is not among them.
pub open spec fn choice_error(f: Flag, val: Seq<char>) -> Option<ParseErrorView> {
    match f.choices {
        Some(c) => if views(c@).contains(val) {
            None
        } else {
            Some(ParseErrorView::InvalidChoice(f.name@, val, views(c@)))
        },
        None => None,
    }
}

/// The flag map after the value-taking flag `f` received `val`.
pub open spec fn with_value(f: Flag, flags: Map<Seq<char>, Seq<char>>, val: Seq<char>) -> Map<
    Seq<char>,
    Seq<char>,
> {
    if f.repeatable {
        flags.insert(f.name@, appended_list(lookup(flags, f.name@), val))
    } else {
        flags.insert(f.name@, val)
    }
}

/// The flag map after the boolean flag `f` was given once.
pub open spec fn with_presence(f: Flag, flags: Map<Seq<char>, Seq<char>>) -> Map<
    Seq<char>,
    Seq<char>,
> {
    if f.repeatable {
        flags.insert(f.name@, bumped_count(lookup(flags, f.name@)))
    } else {
        flags.insert(f.name@, seq!['t', 'r', 'u', 'e'])
    }
}

pub open spec fn named(fl: Seq<Flag>, name: Seq<char>) -> spec_fn(int) -> bool {
    |i: int| fl[i].name@ == name
}

pub open spec fn bool_named(fl: Seq<Flag>, name: Seq<char>) -> spec_fn(int) -> bool {
    |i: int| fl[i].name@ == name && !fl[i].takes_value
}

pub open spec fn with_short(fl: Seq<Flag>, c: char) -> spec_fn(int) -> bool {
    |i: int| fl[i].short == Some(c)
}

/// The outcome of one step: the next state and queue, or an error.
pub enum Step {
    Next(ParseState, Seq<TokenView>),
    Stop(ParseErrorView),
}

/// The value-taking flag `f`, with its inline value if any, followed by the
/// queue `rest`: the value is the inline one or the next word.
pub open spec fn take_value(
    st: ParseState,
    f: Flag,
    value: Option<Seq<char>>,
    rest: Seq<TokenView>,
) -> Step {
    match value {
        Some(v) => match choice_error(f, v) {
            Some(e) => Step::Stop(e),
            None => Step::Next(ParseState { flags: with_value(f, st.flags, v), ..st }, rest),
        },
        None => if rest.len() > 0 && rest[0] is Word {
            let v = rest[0]->Word_0;
            match choice_error(f, v) {
                Some(e) => Step::Stop(e),
                None => Step::Next(
                    ParseState { flags: with_value(f, st.flags, v), ..st },
                    rest.drop_first(),
                ),
            }
        } else {
            Step::Stop(ParseErrorView::FlagMissingValue(f.name@))
        },
    }
}

/// One step of consuming the token queue `q` (which is not empty) against
/// the flags `fl`.
pub open spec fn step(fl: Seq<Flag>, st: ParseState, q: Seq<TokenView>) -> Step {
    let rest = q.drop_first();
    let nf = fl.len() as int;
    match q[0] {
        TokenView::Separator => Step::Next(st, rest),
        TokenView::Word(w) => Step::Next(
            ParseState { positionals: st.positionals.push(w), ..st },
            rest,
        ),
        TokenView::LongFlag(name, value) => {
            let ib = first_where(0, nf, bool_named(fl, name.subrange(3, name.len() as int)));
            let i = first_where(0, nf, named(fl, name));
            if starts_with(name, seq!['n', 'o', '-']) && ib < nf {
                if value is Some {
                    Step::Stop(ParseErrorView::UnknownFlag(seq!['-', '-'] + name))
                } else {
                    Step::Next(
                        ParseState {
                            flags: st.flags.insert(fl[ib].name@, seq!['f', 'a', 'l', 's', 'e']),
                            ..st
                        },
                        rest,
                    )
                }
            } else if i >= nf {
                Step::Stop(ParseErrorView::UnknownFlag(seq!['-', '-'] + name))
            } else if fl[i].takes_value {
                take_value(st, fl[i], value, rest)
            } else {
                match choice_error(fl[i], seq!['t', 'r', 'u', 'e']) {
                    Some(e) => Step::Stop(e),
                    None => Step::Next(
                        ParseState { flags: with_presence(fl[i], st.flags), ..st },
                        rest,
                    ),
                }
            }
        },
        TokenView::ShortFlag(c, value) => {
            let i = first_where(0, nf, with_short(fl, c));
            if i >= nf {
                Step::Stop(ParseErrorView::UnknownFlag(seq!['-', c]))
            } else if fl[i].takes_value {
                take_value(st, fl[i], value, rest)
            } else {
                let st2 = ParseState { flags: with_presence(fl[i], st.flags), ..st };
                match value {
                    Some(r) => if r.len() > 0 {
                        Step::Next(st2, seq![cluster_rest(r)] + rest)
                    } else {
                        Step::Next(st2, rest)
                    },
                    None => Step::Next(st2, rest),
                }
            }
        },
    }
}

/// The short flag standing for the rest `r` (not empty) of a cluster such
/// as `-abc`: its first character, with the remaining ones as its value.
pub open spec fn cluster_rest(r: Seq<char>) -> TokenView {
    TokenView::ShortFlag(r[0], if r.len() > 1 { Some(r.subrange(1, r.len() as int)) } else { None })
}

/// Size of a token: a short flag cluster counts its characters.
pub open spec fn token_weight(t: TokenView) -> nat {
    match t {
        TokenView::ShortFlag(_, Some(v)) => 1 + v.len(),
        _ => 1,
    }
}

/// Size of a token queue; every step makes it smaller.
pub open spec fn queue_weight(q: Seq<TokenView>) -> nat
    decreases q.len(),
{
    if q.len() == 0 {
        0
    } else {
        token_weight(q[0]) + queue_weight(q.drop_first())
    }
}

/// Each step leaves a smaller queue.
pub proof fn lemma_step_shrinks(fl: Seq<Flag>, st: ParseState, q: Seq<TokenView>)
    requires
        q.len() > 0,
    ensures
        step(fl, st, q) matches Step::Next(_, q2) ==> queue_weight(q2) < queue_weight(q),
{
    let rest = q.drop_first();
    if rest.len() > 0 {
        assert(queue_weight(rest) == token_weight(rest[0]) + queue_weight(rest.drop_first()));
    }
    match q[0] {
        TokenView::ShortFlag(c, Some(r)) => {
            if r.len() > 0 {
                let q2 = seq![cluster_rest(r)] + rest;
                assert(q2.drop_first() =~= rest);
                assert(queue_weight(q2) == token_weight(q2[0]) + queue_weight(q2.drop_first()));
            }
        },
        _ => {},
    }
}

/// Consuming the queue `q` from state `st`: the final state, or the first
/// error.
pub open spec fn run_tokens(fl: Seq<Flag>, st: ParseState, q: Seq<TokenView>) -> Result<
    ParseState,
    ParseErrorView,
>
    decreases queue_weight(q),
{
    if q.len() == 0 {
        Ok(st)
    } else {
        match step(fl, st, q) {
            Step::Stop(e) => Err(e),
            Step::Next(st2, q2) => {
                proof {
                    lemma_step_shrinks(fl, st, q);
                }
                run_tokens(fl, st2, q2)
            },
        }
    }
}

/// The state before any token is consumed.
pub open spec fn initial_state() -> ParseState {
    ParseState { positionals: seq![], flags: Map::empty() }
}

/// The state of the consuming loop, seen as a [`ParseState`].
pub open spec fn state_of(positionals: Seq<String>, flags: Seq<(String, String)>) -> ParseState {
    ParseState { positionals: views(positionals), flags: pairs_map(flags) }
}

proof fn lemma_reverse_pop<A>(s: Seq<A>)
    requires
        s.len() > 0,
    ensures
        s.reverse().len() == s.len(),
        s.reverse()[0] == s.last(),
        s.reverse().drop_first() == s.drop_last().reverse(),
{
    assert(s.reverse().drop_first() =~= s.drop_last().reverse());
}

proof fn lemma_reverse_push<A>(s: Seq<A>, x: A)
    ensures
        s.push(x).reverse() == seq![x] + s.reverse(),
{
    assert(s.push(x).reverse() =~= seq![x] + s.reverse());
}

proof fn lemma_token_views_pop(s: Seq<Token>)
    requires
        s.len() > 0,
    ensures
        token_views(s.drop_last()) == token_views(s).drop_last(),
        token_views(s).last() == s.last()@,
{
    assert(token_views(s.drop_last()) =~= token_views(s).drop_last());
}

proof fn lemma_token_views_push(s: Seq<Token>, t: Token)
    ensures
        token_views(s.push(t)) == token_views(s).push(t@),
{
    assert(token_views(s.push(t)) =~= token_views(s).push(t@));
}

/// `--name`.
fn long_form(name: &String) -> (r: String)
    ensures
        r@ == seq!['-', '-'] + name@,
{
    let mut s = String::new();
    push_char(&mut s, '-');
    push_char(&mut s, '-');
    append_to(&mut s, name);
    proof {
        assert(s@ =~= seq!['-', '-'] + name@);
    }
    s
}

/// `-c`.
fn short_form(c: char) -> (r: String)
    ensures
        r@ == seq!['-', c],
{
    let mut s = String::new();
    push_char(&mut s, '-');
    push_char(&mut s, c);
    proof {
        assert(s@ =~= seq!['-', c]);
    }
    s
}

/// Position of the first flag named `name`, or the number of flags.
fn find_named(fl: &Vec<Flag>, name: &String) -> (r: usize)
    ensures
        r == first_where(0, fl@.len() as int, named(fl@, name@)),
{
    let mut i: usize = 0;
    while i < fl.len()
        invariant
            i <= fl@.len(),
            forall|k: int| 0 <= k < i ==> !(#[trigger] named(fl@, name@)(k)),
        decreases fl.len() - i,
    {
        if fl[i].name == *name {
            proof {
                lemma_first_where_at(0, fl@.len() as int, named(fl@, name@), i as int);
            }
            return i;
        }
        i = i + 1;
    }
    proof {
        lemma_first_where_none(0, fl@.len() as int, named(fl@, name@));
    }
    i
}

/// Position of the first boolean flag named `name`, or the number of flags.
fn find_bool_named(fl: &Vec<Flag>, name: &String) -> (r: usize)
    ensures
        r == first_where(0, fl@.len() as int, bool_named(fl@, name@)),
{
    let mut i: usize = 0;
    while i < fl.len()
        invariant
            i <= fl@.len(),
            forall|k: int| 0 <= k < i ==> !(#[trigger] bool_named(fl@, name@)(k)),
        decreases fl.len() - i,
    {
        if fl[i].name == *name && !fl[i].takes_value {
            proof {
                lemma_first_where_at(0, fl@.len() as int, bool_named(fl@, name@), i as int);
            }
            return i;
        }
        i = i + 1;
    }
    proof {
        lemma_first_where_none(0, fl@.len() as int, bool_named(fl@, name@));
    }
    i
}

/// Position of the first flag with short form `c`, or the number of flags.
fn find_short(fl: &Vec<Flag>, c: char) -> (r: usize)
    ensures
        r == first_where(0, fl@.len() as int, with_short(fl@, c)),
{
    let mut i: usize = 0;
    while i < fl.len()
        invariant
            i <= fl@.len(),
            forall|k: int| 0 <= k < i ==> !(#[trigger] with_short(fl@, c)(k)),
        decreases fl.len() - i,
    {
        if fl[i].short == Some(c) {
            proof {
                lemma_first_where_at(0, fl@.len() as int, with_short(fl@, c), i as int);
            }
            return i;
        }
        i = i + 1;
    }
    proof {
        lemma_first_where_none(0, fl@.len() as int, with_short(fl@, c));
    }
    i
}

/// Whether `v` is one of `choices`.
fn choices_contain(choices: &Vec<String>, v: &String) -> (r: bool)
    ensures
        r == views(choices@).contains(v@),
{
    let mut i: usize = 0;
    while i < choices.len()
        invariant
            i <= choices@.len(),
            forall|k: int| 0 <= k < i ==> choices@[k]@ != v@,
        decreases choices.len() - i,
    {
        if choices[i] == *v {
            proof {
                assert(views(choices@)[i as int] == v@);
            }
            return true;
        }
        i = i + 1;
    }
    proof {
        assert forall|k: int| 0 <= k < views(choices@).len() implies views(choices@)[k] != v@ by {
            assert(views(choices@)[k] == choices@[k]@);
        }
    }
    false
}

/// A copy of a list of strings.
fn copy_strings(v: &Vec<String>) -> (r: Vec<String>)
    ensures
        views(r@) == views(v@),
{
    let mut out: Vec<String> = Vec::new();
    let mut i: usize = 0;
    while i < v.len()
        invariant
            i <= v@.len(),
            views(out@) == views(v@).subrange(0, i as int),
        decreases v.len() - i,
    {
        let ghost prev = out@;
        out.push(v[i].clone());
        proof {
            assert(views(out@) =~= views(prev).push(v@[i as int]@));
            assert(views(out@) =~= views(v@).subrange(0, i + 1));
        }
        i = i + 1;
    }
    proof {
        assert(views(v@).subrange(0, v@.len() as int) =~= views(v@));
    }
    out
}

/// The error for giving `val` to `f`, if `f` restricts its values.
fn check_choice(f: &Flag, val: &String) -> (r: Option<ParseError>)
    ensures
        match choice_error(*f, val@) {
            Some(e) => r matches Some(x) && x@ == e,
            None => r is None,
        },
{
    match &f.choices {
        Some(c) => {
            if choices_contain(c, val) {
                None
            } else {
                Some(
                    ParseError::InvalidChoice {
                        flag: f.name.clone(),
                        value: val.clone(),
                        choices: copy_strings(c),
                    },
                )
            }
        },
        None => None,
    }
}

/// Record the value `val` of the value-taking flag `f`.
fn record_value(f: &Flag, flags: &mut Vec<(String, String)>, val: String)
    ensures
        pairs_map(final(flags)@) == with_value(*f, pairs_map(old(flags)@), val@),
{
    if f.repeatable {
        let stored = match assoc_lookup(flags, &f.name) {
            None => {
                let mut one: Vec<String> = Vec::new();
                one.push(val);
                proof {
                    assert(views(one@) =~= seq![val@]);
                }
                encode_string_list(&one)
            },
            Some(existing) => {
                let mut list = match decode_string_list(existing.as_str()) {
                    Some(l) => l,
                    None => {
                        let mut l: Vec<String> = Vec::new();
                        l.push(existing.clone());
                        proof {
                            assert(views(l@) =~= seq![existing@]);
                        }
                        l
                    },
                };
                let ghost before = list@;
                list.push(val);
                proof {
                    assert(views(list@) =~= views(before).push(val@));
                }
                encode_string_list(&list)
            },
        };
        assoc_insert(flags, f.name.clone(), stored);
    } else {
        assoc_insert(flags, f.name.clone(), val);
    }
}

/// Record one more occurrence of the boolean flag `f`.
fn record_presence(f: &Flag, flags: &mut Vec<(String, String)>)
    ensures
        pairs_map(final(flags)@) == with_presence(*f, pairs_map(old(flags)@)),
{
    if f.repeatable {
        let count: u64 = match assoc_lookup(flags, &f.name) {
            Some(v) => match parse_u64(v.as_str()) {
                Some(n) => n,
                None => 0,
            },
            None => 0,
        };
        let next = if count < u64::MAX {
            count + 1
        } else {
            count
        };
        let text = u64_text(next);
        assoc_insert(flags, f.name.clone(), text);
    } else {
        let mut t = String::new();
        push_char(&mut t, 't');
        push_char(&mut t, 'r');
        push_char(&mut t, 'u');
        push_char(&mut t, 'e');
        proof {
            assert(t@ =~= seq!['t', 'r', 'u', 'e']);
        }
        assoc_insert(flags, f.name.clone(), t);
    }
}

/// Give the value-taking flag `f` its inline value, or the next word.
fn take_value_exec(
    f: &Flag,
    value: Option<String>,
    stack: &mut Vec<Token>,
    flags: &mut Vec<(String, String)>,
    Ghost(pos): Ghost<Seq<Seq<char>>>,
) -> (r: Result<(), ParseError>)
    ensures
        match take_value(
            ParseState { positionals: pos, flags: pairs_map(old(flags)@) },
            *f,
            opt_chars(value),
            token_views(old(stack)@).reverse(),
        ) {
            Step::Stop(e) => r matches Err(x) && x@ == e,
            Step::Next(st2, q2) => r is Ok && st2 == (ParseState {
                positionals: pos,
                flags: pairs_map(final(flags)@),
            }) && q2 == token_views(final(stack)@).reverse(),
        },
{
    let ghost q = token_views(stack@).reverse();
    let v: String = match value {
        Some(v) => v,
        None => {
            let n = stack.len();
            let next_is_word = n > 0 && match &stack[n - 1] {
                Token::Word(_) => true,
                _ => false,
            };
            if !next_is_word {
                proof {
                    if n > 0 {
                        lemma_reverse_pop(token_views(stack@));
                        lemma_token_views_pop(stack@);
                    }
                }
                return Err(ParseError::FlagMissingValue { name: f.name.clone() });
            }
            proof {
                lemma_reverse_pop(token_views(stack@));
                lemma_token_views_pop(stack@);
            }
            match stack.pop() {
                Some(Token::Word(w)) => w,
                _ => {
                    return Err(ParseError::FlagMissingValue { name: f.name.clone() });
                },
            }
        },
    };
    match check_choice(f, &v) {
        Some(e) => {
            return Err(e);
        },
        None => {},
    }
    record_value(f, flags, v);
    Ok(())
}

/// Handle a long flag `--name` or `--name=value` taken from the queue.
fn long_flag(
    fl: &Vec<Flag>,
    name: String,
    value: Option<String>,
    stack: &mut Vec<Token>,
    flags: &mut Vec<(String, String)>,
    Ghost(pos): Ghost<Seq<Seq<char>>>,
) -> (r: Result<(), ParseError>)
    ensures
        match step(
            fl@,
            ParseState { positionals: pos, flags: pairs_map(old(flags)@) },
            seq![TokenView::LongFlag(name@, opt_chars(value))] + token_views(old(stack)@).reverse(),
        ) {
            Step::Stop(e) => r matches Err(x) && x@ == e,
            Step::Next(st2, q2) => r is Ok && st2 == (ParseState {
                positionals: pos,
                flags: pairs_map(final(flags)@),
            }) && q2 == token_views(final(stack)@).reverse(),
        },
{
    let ghost q = seq![TokenView::LongFlag(name@, opt_chars(value))] + token_views(stack@).reverse();
    proof {
        assert(q[0] == TokenView::LongFlag(name@, opt_chars(value)));
        assert(q.drop_first() =~= token_views(stack@).reverse());
    }
    let nf = fl.len();
    let nv = chars_of(name.as_str());
    let negated = nv.len() >= 3 && nv[0] == 'n' && nv[1] == 'o' && nv[2] == '-';
    let ghost base = name@.subrange(3, name@.len() as int);
    proof {
        if nv@.len() >= 3 {
            assert(starts_with(name@, seq!['n', 'o', '-']) == negated) by {
                if negated {
                    assert(name@.subrange(0, 3) =~= seq!['n', 'o', '-']);
                } else if starts_with(name@, seq!['n', 'o', '-']) {
                    assert(name@.subrange(0, 3)[0] == 'n');
                    assert(name@.subrange(0, 3)[1] == 'o');
                    assert(name@.subrange(0, 3)[2] == '-');
                }
            }
        }
    }
    let ib = if negated {
        let b = string_of_range(&nv, 3, nv.len());
        find_bool_named(fl, &b)
    } else {
        nf
    };
    if negated && ib < nf {
        if value.is_some() {
            return Err(ParseError::UnknownFlag(long_form(&name)));
        }
        let mut v = String::new();
        push_char(&mut v, 'f');
        push_char(&mut v, 'a');
        push_char(&mut v, 'l');
        push_char(&mut v, 's');
        push_char(&mut v, 'e');
        proof {
            assert(v@ =~= seq!['f', 'a', 'l', 's', 'e']);
        }
        assoc_insert(flags, fl[ib].name.clone(), v);
        return Ok(());
    }
    let i = find_named(fl, &name);
    if i >= nf {
        return Err(ParseError::UnknownFlag(long_form(&name)));
    }
    let f = &fl[i];
    if f.takes_value {
        return take_value_exec(f, value, stack, flags, Ghost(pos));
    }
    let mut t = String::new();
    push_char(&mut t, 't');
    push_char(&mut t, 'r');
    push_char(&mut t, 'u');
    push_char(&mut t, 'e');
    proof {
        assert(t@ =~= seq!['t', 'r', 'u', 'e']);
    }
    match check_choice(f, &t) {
        Some(e) => {
            return Err(e);
        },
        None => {},
    }
    record_presence(f, flags);
    Ok(())
}

/// Handle a short flag `-c` or `-crest` taken from the queue.
fn short_flag(
    fl: &Vec<Flag>,
    c: char,
    value: Option<String>,
    stack: &mut Vec<Token>,
    flags: &mut Vec<(String, String)>,
    Ghost(pos): Ghost<Seq<Seq<char>>>,
) -> (r: Result<(), ParseError>)
    ensures
        match step(
            fl@,
            ParseState { positionals: pos, flags: pairs_map(old(flags)@) },
            seq![TokenView::ShortFlag(c, opt_chars(value))] + token_views(old(stack)@).reverse(),
        ) {
            Step::Stop(e) => r matches Err(x) && x@ == e,
            Step::Next(st2, q2) => r is Ok && st2 == (ParseState {
                positionals: pos,
                flags: pairs_map(final(flags)@),
            }) && q2 == token_views(final(stack)@).reverse(),
        },
{
    let ghost q = seq![TokenView::ShortFlag(c, opt_chars(value))] + token_views(stack@).reverse();
    proof {
        assert(q[0] == TokenView::ShortFlag(c, opt_chars(value)));
        assert(q.drop_first() =~= token_views(stack@).reverse());
    }
    let nf = fl.len();
    let i = find_short(fl, c);
    if i >= nf {
        return Err(ParseError::UnknownFlag(short_form(c)));
    }
    let f = &fl[i];
    if f.takes_value {
        return take_value_exec(f, value, stack, flags, Ghost(pos));
    }
    record_presence(f, flags);
    match value {
        Some(r) => {
            let rv = chars_of(r.as_str());
            if rv.len() > 0 {
                let rest = if rv.len() > 1 {
                    Some(string_of_range(&rv, 1, rv.len()))
                } else {
                    None
                };
                let t = Token::ShortFlag { name: rv[0], value: rest };
                proof {
                    assert(t@ == cluster_rest(r@));
                    lemma_token_views_push(stack@, t);
                    lemma_reverse_push(token_views(stack@), t@);
                }
                stack.push(t);
            }
        },
        None => {},
    }
    Ok(())
}

/// Consume the tokens from position `from` on against the flags `fl`.
#[verifier::loop_isolation(false)]
fn consume(fl: &Vec<Flag>, toks: Vec<Token>, from: usize) -> (r: Result<
    (Vec<String>, Vec<(String, String)>),
    ParseError,
>)
    requires
        from <= toks@.len(),
    ensures
        match run_tokens(
            fl@,
            initial_state(),
            token_views(toks@).subrange(from as int, toks@.len() as int),
        ) {
            Ok(st) => r matches Ok((p, f)) && st == state_of(p@, f@),
            Err(e) => r matches Err(x) && x@ == e,
        },
{
    let ghost q0 = token_views(toks@).subrange(from as int, toks@.len() as int);
    let mut toks = toks;
    let mut stack: Vec<Token> = Vec::new();
    while toks.len() > from
        invariant
            from <= toks@.len(),
            q0 == token_views(toks@).subrange(from as int, toks@.len() as int) + token_views(
                stack@,
            ).reverse(),
        decreases toks.len(),
    {
        let ghost before_t = toks@;
        let ghost before_s = stack@;
        let t = toks.pop().unwrap();
        proof {
            lemma_token_views_pop(before_t);
            lemma_token_views_push(before_s, t);
            lemma_reverse_push(token_views(before_s), t@);
            assert(token_views(before_t).subrange(from as int, before_t.len() as int) =~= token_views(
                toks@,
            ).subrange(from as int, toks@.len() as int).push(t@));
            assert(q0 =~= token_views(toks@).subrange(from as int, toks@.len() as int) + (seq![t@]
                + token_views(before_s).reverse()));
        }
        stack.push(t);
    }
    proof {
        assert(q0 =~= token_views(stack@).reverse());
    }
    let mut positionals: Vec<String> = Vec::new();
    let mut flags: Vec<(String, String)> = Vec::new();
    proof {
        assert(state_of(positionals@, flags@).positionals =~= seq![]);
        assert(state_of(positionals@, flags@).flags =~= Map::empty());
    }
    while stack.len() > 0
        invariant
            run_tokens(fl@, initial_state(), q0) == run_tokens(
                fl@,
                state_of(positionals@, flags@),
                token_views(stack@).reverse(),
            ),
        decreases queue_weight(token_views(stack@).reverse()),
    {
        let ghost q = token_views(stack@).reverse();
        let ghost st = state_of(positionals@, flags@);
        let ghost s0 = stack@;
        proof {
            lemma_reverse_pop(token_views(s0));
            lemma_token_views_pop(s0);
            lemma_step_shrinks(fl@, st, q);
        }
        let tok = stack.pop().unwrap();
        proof {
            assert(q == seq![tok@] + token_views(stack@).reverse()) by {
                assert(q =~= seq![tok@] + token_views(stack@).reverse());
            }
        }
        match tok {
            Token::Separator => {},
            Token::Word(w) => {
                let ghost pv = positionals@;
                positionals.push(w);
                proof {
                    assert(views(positionals@) =~= views(pv).push(w@));
                }
            },
            Token::LongFlag { name, value } => {
                let r = long_flag(fl, name, value, &mut stack, &mut flags, Ghost(views(positionals@)));
                if let Err(e) = r {
                    proof {
                        assert(run_tokens(fl@, st, q) == Err::<ParseState, ParseErrorView>(e@));
                    }
                    return Err(e);
                }
            },
            Token::ShortFlag { name, value } => {
                let r = short_flag(fl, name, value, &mut stack, &mut flags, Ghost(views(positionals@)));
                if let Err(e) = r {
                    proof {
                        assert(run_tokens(fl@, st, q) == Err::<ParseState, ParseErrorView>(e@));
                    }
                    return Err(e);
                }
            },
        }
    }
    Ok((positionals, flags))
}

// ── After the tokens: binding, environment, exclusivity, requirements ──────

/// What binding positional values to arguments gives.
pub enum Bound {
    /// The argument map.
    Args(Map<Seq<char>, Seq<char>>),
    /// A missing required argument.
    Fail(ParseErrorView),
    /// Slicing the positional values from past their end, as happens for a
    /// variadic argument placed after more optional arguments than there are
    /// values: the operation panics.
    Panics,
}

/// Bind the positional values `pos` to the arguments from index `i` on,
/// into `acc`: each argument takes the value at its position, or its default;
/// a variadic argument takes every remaining value as a JSON list.
pub open spec fn bind_from(
    args: Seq<Argument>,
    pos: Seq<Seq<char>>,
    i: int,
    acc: Map<Seq<char>, Seq<char>>,
) -> Bound
    decreases args.len() - i,
{
    if i >= args.len() || i < 0 {
        Bound::Args(acc)
    } else {
        let a = args[i];
        if a.variadic {
            if i > pos.len() {
                Bound::Panics
            } else {
                let values = pos.subrange(i, pos.len() as int);
                if values.len() == 0 && a.required {
                    Bound::Fail(ParseErrorView::MissingArgument(a.name@))
                } else if values.len() > 0 {
                    Bound::Args(acc.insert(a.name@, json_list_text(values)))
                } else {
                    match a.default {
                        Some(d) => Bound::Args(acc.insert(a.name@, d@)),
                        None => Bound::Args(acc),
                    }
                }
            }
        } else if i < pos.len() {
            bind_from(args, pos, i + 1, acc.insert(a.name@, pos[i]))
        } else if a.required {
            Bound::Fail(ParseErrorView::MissingArgument(a.name@))
        } else {
            match a.default {
                Some(d) => bind_from(args, pos, i + 1, acc.insert(a.name@, d@)),
                None => bind_from(args, pos, i + 1, acc),
            }
        }
    }
}

/// More positional values were given than there are arguments, and the last
/// argument is not variadic.
pub open spec fn has_unexpected(args: Seq<Argument>, pos: Seq<Seq<char>>) -> bool {
    pos.len() > args.len() && !(args.len() > 0 && args.last().variadic)
}

/// Fill flags that are still unset from their environment variables (when
/// set and not empty), from index `i` on; such values must respect choices.
pub open spec fn env_from(
    fl: Seq<Flag>,
    env: Map<Seq<char>, Seq<char>>,
    flags: Map<Seq<char>, Seq<char>>,
    i: int,
) -> Result<Map<Seq<char>, Seq<char>>, ParseErrorView>
    decreases fl.len() - i,
{
    if i >= fl.len() || i < 0 {
        Ok(flags)
    } else {
        let f = fl[i];
        let candidate = match f.env {
            Some(var) => lookup(env, var@),
            None => None,
        };
        if !flags.contains_key(f.name@) && candidate is Some && candidate.unwrap().len() > 0 {
            let v = candidate.unwrap();
            match choice_error(f, v) {
                Some(e) => Err(e),
                None => env_from(fl, env, flags.insert(f.name@, v), i + 1),
            }
        } else {
            env_from(fl, env, flags, i + 1)
        }
    }
}

pub open spec fn is_set_in(group: Seq<String>, flags: Map<Seq<char>, Seq<char>>) -> spec_fn(
    int,
) -> bool {
    |k: int| flags.contains_key(group[k]@)
}

/// The flags of `group` that are set, as `--name`, in group order.
pub open spec fn given_in_group(group: Seq<String>, flags: Map<Seq<char>, Seq<char>>) -> Seq<
    Seq<char>,
> {
    crate::resolver::indices_where(group.len() as int, is_set_in(group, flags)).map_values(
        |k: int| seq!['-', '-'] + group[k]@,
    )
}

pub open spec fn conflicting(groups: Seq<Vec<String>>, flags: Map<Seq<char>, Seq<char>>) -> spec_fn(
    int,
) -> bool {
    |g: int| given_in_group(groups[g]@, flags).len() > 1
}

/// The first exclusive group with more than one flag set, as an error.
pub open spec fn exclusive_error(groups: Seq<Vec<String>>, flags: Map<Seq<char>, Seq<char>>) -> Option<
    ParseErrorView,
> {
    let g = first_where(0, groups.len() as int, conflicting(groups, flags));
    if g < groups.len() {
        Some(ParseErrorView::MutuallyExclusive(given_in_group(groups[g]@, flags)))
    } else {
        None
    }
}

/// From index `i` on: a required flag that is unset is an error; an unset
/// flag with a default takes it.
pub open spec fn finish_flags(fl: Seq<Flag>, flags: Map<Seq<char>, Seq<char>>, i: int) -> Result<
    Map<Seq<char>, Seq<char>>,
    ParseErrorView,
>
    decreases fl.len() - i,
{
    if i >= fl.len() || i < 0 {
        Ok(flags)
    } else {
        let f = fl[i];
        if f.required && !flags.contains_key(f.name@) {
            Err(ParseErrorView::MissingFlag(f.name@))
        } else if !flags.contains_key(f.name@) && f.default is Some {
            finish_flags(fl, flags.insert(f.name@, f.default.unwrap()@), i + 1)
        } else {
            finish_flags(fl, flags, i + 1)
        }
    }
}

proof fn lemma_empty_pairs(v: Seq<(String, String)>)
    requires
        v.len() == 0,
    ensures
        pairs_map(v) == Map::<Seq<char>, Seq<char>>::empty(),
{
    assert(crate::model::pair_views(v) =~= seq![]);
    assert(pairs_map(v) =~= Map::<Seq<char>, Seq<char>>::empty());
}

/// Bind positional values to the arguments; `None` where slicing the values
/// would panic (see [`Bound::Panics`]).
fn bind_arguments(args: &Vec<Argument>, pos: &Vec<String>) -> (r: Option<
    Result<Vec<(String, String)>, ParseError>,
>)
    ensures
        match bind_from(args@, views(pos@), 0, Map::empty()) {
            Bound::Args(m) => r matches Some(Ok(v)) && pairs_map(v@) == m,
            Bound::Fail(e) => r matches Some(Err(x)) && x@ == e,
            Bound::Panics => r is None,
        },
{
    let ghost pv = views(pos@);
    let mut acc: Vec<(String, String)> = Vec::new();
    proof {
        lemma_empty_pairs(acc@);
    }
    let mut i: usize = 0;
    while i < args.len()
        invariant
            i <= args@.len(),
            pv == views(pos@),
            bind_from(args@, pv, 0, Map::empty()) == bind_from(args@, pv, i as int, pairs_map(acc@)),
        decreases args.len() - i,
    {
        let a = &args[i];
        if a.variadic {
            if i > pos.len() {
                return None;
            }
            let mut values: Vec<String> = Vec::new();
            let mut k: usize = i;
            while k < pos.len()
                invariant
                    i <= k <= pos@.len(),
                    pv == views(pos@),
                    views(values@) == pv.subrange(i as int, k as int),
                decreases pos.len() - k,
            {
                let ghost prev = values@;
                values.push(pos[k].clone());
                proof {
                    assert(views(values@) =~= views(prev).push(pos@[k as int]@));
                    assert(views(values@) =~= pv.subrange(i as int, k + 1));
                }
                k = k + 1;
            }
            if values.len() == 0 && a.required {
                return Some(Err(ParseError::MissingArgument(a.name.clone())));
            } else if values.len() > 0 {
                let text = encode_string_list(&values);
                assoc_insert(&mut acc, a.name.clone(), text);
                return Some(Ok(acc));
            } else {
                match &a.default {
                    Some(d) => {
                        assoc_insert(&mut acc, a.name.clone(), d.clone());
                    },
                    None => {},
                }
                return Some(Ok(acc));
            }
        }
        if i < pos.len() {
            assoc_insert(&mut acc, a.name.clone(), pos[i].clone());
        } else if a.required {
            return Some(Err(ParseError::MissingArgument(a.name.clone())));
        } else {
            match &a.default {
                Some(d) => {
                    assoc_insert(&mut acc, a.name.clone(), d.clone());
                },
                None => {},
            }
        }
        i = i + 1;
    }
    Some(Ok(acc))
}

/// Fill unset flags from the environment `env`.
fn apply_env(fl: &Vec<Flag>, env: &Vec<(String, String)>, flags: &mut Vec<(String, String)>) -> (r:
    Result<(), ParseError>)
    ensures
        match env_from(fl@, pairs_map(env@), pairs_map(old(flags)@), 0) {
            Ok(m) => r is Ok && pairs_map(final(flags)@) == m,
            Err(e) => r matches Err(x) && x@ == e,
        },
{
    let ghost start = pairs_map(flags@);
    let mut i: usize = 0;
    while i < fl.len()
        invariant
            i <= fl@.len(),
            start == pairs_map(old(flags)@),
            env_from(fl@, pairs_map(env@), start, 0) == env_from(
                fl@,
                pairs_map(env@),
                pairs_map(flags@),
                i as int,
            ),
        decreases fl.len() - i,
    {
        let f = &fl[i];
        if assoc_lookup(flags, &f.name).is_none() {
            match &f.env {
                Some(var) => {
                    match assoc_lookup(env, var) {
                        Some(v) => {
                            if !v.as_str().is_empty() {
                                match check_choice(f, v) {
                                    Some(e) => {
                                        return Err(e);
                                    },
                                    None => {},
                                }
                                assoc_insert(flags, f.name.clone(), v.clone());
                            }
                        },
                        None => {},
                    }
                },
                None => {},
            }
        }
        i = i + 1;
    }
    Ok(())
}

/// The flags of `group` that are set, as `--name`.
fn given_names(group: &Vec<String>, flags: &Vec<(String, String)>) -> (r: Vec<String>)
    ensures
        views(r@) == given_in_group(group@, pairs_map(flags@)),
{
    let ghost fm = pairs_map(flags@);
    let mut out: Vec<String> = Vec::new();
    let mut k: usize = 0;
    while k < group.len()
        invariant
            k <= group@.len(),
            fm == pairs_map(flags@),
            views(out@) == crate::resolver::indices_where(k as int, is_set_in(group@, fm)).map_values(
                |m: int| seq!['-', '-'] + group@[m]@,
            ),
        decreases group.len() - k,
    {
        if assoc_lookup(flags, &group[k]).is_some() {
            let ghost prev = out@;
            out.push(long_form(&group[k]));
            proof {
                assert(views(out@) =~= views(prev).push(seq!['-', '-'] + group@[k as int]@));
            }
        }
        proof {
            assert(views(out@) =~= crate::resolver::indices_where(k + 1, is_set_in(group@, fm)).map_values(
                |m: int| seq!['-', '-'] + group@[m]@,
            ));
        }
        k = k + 1;
    }
    out
}

/// The first exclusive group with more than one flag set, as an error.
fn check_exclusive(groups: &Vec<Vec<String>>, flags: &Vec<(String, String)>) -> (r: Option<
    ParseError,
>)
    ensures
        match exclusive_error(groups@, pairs_map(flags@)) {
            Some(e) => r matches Some(x) && x@ == e,
            None => r is None,
        },
{
    let ghost fm = pairs_map(flags@);
    let mut g: usize = 0;
    while g < groups.len()
        invariant
            g <= groups@.len(),
            fm == pairs_map(flags@),
            forall|k: int| 0 <= k < g ==> !(#[trigger] conflicting(groups@, fm)(k)),
        decreases groups.len() - g,
    {
        let given = given_names(&groups[g], flags);
        if given.len() > 1 {
            proof {
                lemma_first_where_at(0, groups@.len() as int, conflicting(groups@, fm), g as int);
            }
            return Some(ParseError::MutuallyExclusive { flags: given });
        }
        g = g + 1;
    }
    proof {
        lemma_first_where_none(0, groups@.len() as int, conflicting(groups@, fm));
    }
    None
}

/// Check required flags and fill defaults.
fn finish_flags_exec(fl: &Vec<Flag>, flags: &mut Vec<(String, String)>) -> (r: Result<(), ParseError>)
    ensures
        match finish_flags(fl@, pairs_map(old(flags)@), 0) {
            Ok(m) => r is Ok && pairs_map(final(flags)@) == m,
            Err(e) => r matches Err(x) && x@ == e,
        },
{
    let ghost start = pairs_map(flags@);
    let mut i: usize = 0;
    while i < fl.len()
        invariant
            i <= fl@.len(),
            start == pairs_map(old(flags)@),
            finish_flags(fl@, start, 0) == finish_flags(fl@, pairs_map(flags@), i as int),
        decreases fl.len() - i,
    {
        let f = &fl[i];
        let present = assoc_lookup(flags, &f.name).is_some();
        if f.required && !present {
            return Err(ParseError::MissingFlag(f.name.clone()));
        }
        if !present {
            match &f.default {
                Some(d) => {
                    assoc_insert(flags, f.name.clone(), d.clone());
                },
                None => {},
            }
        }
        i = i + 1;
    }
    Ok(())
}

// ── Walking the command tree and the whole parse ────────────────────────────

/// Descend from `cmd` into subcommands while the token at `pos` is a word
/// naming one: an ambiguous word is an error, and so is an unknown word when
/// `cmd` takes no positional arguments; otherwise an unknown word starts the
/// positional values.
pub open spec fn descend(cmd: Command, toks: Seq<TokenView>, pos: int) -> Result<
    (Command, int),
    ParseErrorView,
>
    decreases toks.len() - pos,
{
    if pos < 0 || pos >= toks.len() || cmd.subcommands@.len() == 0 || !(toks[pos] is Word) {
        Ok((cmd, pos))
    } else {
        let w = toks[pos]->Word_0;
        match resolution(cmd.subcommands@, w) {
            Resolution::Found(i) => descend(cmd.subcommands@[i], toks, pos + 1),
            Resolution::Ambiguous(c) => Err(
                ParseErrorView::Resolve(ResolveErrorView::Ambiguous(w, c)),
            ),
            Resolution::Unknown(_) => if cmd.arguments@.len() == 0 {
                Err(ParseErrorView::UnknownSubcommand(cmd.canonical@, w))
            } else {
                Ok((cmd, pos))
            },
        }
    }
}

/// What parsing gives.
pub enum ParseOutcome {
    /// The command reached, its argument map and its flag map.
    Parsed(Command, Map<Seq<char>, Seq<char>>, Map<Seq<char>, Seq<char>>),
    /// An error.
    Failed(ParseErrorView),
    /// Binding the positional values panics (see [`Bound::Panics`]).
    Panics,
}

/// The phases after the command is known: consume the queue `q`, bind the
/// positional values, reject surplus values, fall back on the environment,
/// check exclusive groups, then required flags and defaults.
pub open spec fn finish_spec(cmd: Command, q: Seq<TokenView>, env: Map<Seq<char>, Seq<char>>) -> ParseOutcome {
    match run_tokens(cmd.flags@, initial_state(), q) {
        Err(e) => ParseOutcome::Failed(e),
        Ok(st) => match bind_from(cmd.arguments@, st.positionals, 0, Map::empty()) {
            Bound::Panics => ParseOutcome::Panics,
            Bound::Fail(e) => ParseOutcome::Failed(e),
            Bound::Args(args) => if has_unexpected(cmd.arguments@, st.positionals) {
                ParseOutcome::Failed(
                    ParseErrorView::UnexpectedArgument(st.positionals[cmd.arguments@.len() as int]),
                )
            } else {
                match env_from(cmd.flags@, env, st.flags, 0) {
                    Err(e) => ParseOutcome::Failed(e),
                    Ok(f1) => match exclusive_error(cmd.exclusive_groups@, f1) {
                        Some(e) => ParseOutcome::Failed(e),
                        None => match finish_flags(cmd.flags@, f1, 0) {
                            Err(e) => ParseOutcome::Failed(e),
                            Ok(f2) => ParseOutcome::Parsed(cmd, args, f2),
                        },
                    },
                }
            },
        },
    }
}

/// Parsing the argument vector `argv` against the top-level commands `cmds`,
/// with the environment variables `env`.
pub open spec fn parse_spec(
    cmds: Seq<Command>,
    argv: Seq<Seq<char>>,
    env: Map<Seq<char>, Seq<char>>,
) -> ParseOutcome {
    let toks = tokenize_spec(argv);
    if toks.len() == 0 || !(toks[0] is Word) {
        ParseOutcome::Failed(ParseErrorView::NoCommand)
    } else {
        let w = toks[0]->Word_0;
        match resolution(cmds, w) {
            Resolution::Ambiguous(c) => ParseOutcome::Failed(
                ParseErrorView::Resolve(ResolveErrorView::Ambiguous(w, c)),
            ),
            Resolution::Unknown(s) => ParseOutcome::Failed(
                ParseErrorView::Resolve(ResolveErrorView::Unknown(w, s)),
            ),
            Resolution::Found(i) => match descend(cmds[i], toks, 1) {
                Err(e) => ParseOutcome::Failed(e),
                Ok((cmd, pos)) => finish_spec(cmd, toks.subrange(pos, toks.len() as int), env),
            },
        }
    }
}

/// The result of a successful parse: the command reached, and its argument
/// and flag values keyed by name.
#[derive(Debug)]
pub struct ParsedCommand<'a> {
    /// The command reached.
    pub command: &'a Command,
    /// Argument values by argument name.
    pub args: Vec<(String, String)>,
    /// Flag values by flag name: `"true"` for boolean flags, counts for
    /// repeatable boolean flags, JSON lists for repeatable value-taking flags.
    pub flags: Vec<(String, String)>,
}

/// `r` is what the outcome `o` describes.
pub open spec fn outcome_matches(o: ParseOutcome, r: Result<ParsedCommand, ParseError>) -> bool {
    match o {
        ParseOutcome::Parsed(c, a, f) => r matches Ok(p) && *p.command == c && pairs_map(p.args@)
            == a && pairs_map(p.flags@) == f,
        ParseOutcome::Failed(e) => r matches Err(x) && x@ == e,
        ParseOutcome::Panics => false,
    }
}

/// Walk into subcommands from `cmd`, starting at token `pos`.
#[verifier::loop_isolation(false)]
fn descend_exec<'a>(cmd: &'a Command, toks: &Vec<Token>, pos: usize) -> (r: Result<
    (&'a Command, usize),
    ParseError,
>)
    requires
        pos <= toks@.len(),
    ensures
        match descend(*cmd, token_views(toks@), pos as int) {
            Ok((c, p)) => r matches Ok((x, q)) && *x == c && q == p,
            Err(e) => r matches Err(x) && x@ == e,
        },
        r matches Ok((_, q)) ==> q <= toks@.len(),
{
    let ghost tv = token_views(toks@);
    let ghost start = pos;
    let mut cur: &'a Command = cmd;
    let mut pos = pos;
    loop
        invariant
            pos <= toks@.len(),
            tv == token_views(toks@),
            descend(*cmd, tv, start as int) == descend(*cur, tv, pos as int),
        decreases toks@.len() - pos,
    {
        if cur.subcommands.len() == 0 || pos >= toks.len() {
            return Ok((cur, pos));
        }
        proof {
            assert(tv[pos as int] == toks@[pos as int]@);
        }
        match &toks[pos] {
            Token::Word(w) => {
                let resolver = Resolver::new(cur.subcommands.as_slice());
                match resolver.resolve(w.as_str()) {
                    Ok(sub) => {
                        cur = sub;
                        pos = pos + 1;
                    },
                    Err(e) => match e {
                        ResolveError::Ambiguous { input, candidates } => {
                            return Err(
                                ParseError::Resolve(ResolveError::Ambiguous { input, candidates }),
                            );
                        },
                        ResolveError::Unknown { .. } => {
                            if cur.arguments.len() == 0 {
                                return Err(
                                    ParseError::UnknownSubcommand {
                                        parent: cur.canonical.clone(),
                                        got: w.clone(),
                                    },
                                );
                            }
                            return Ok((cur, pos));
                        },
                    },
                }
            },
            _ => {
                return Ok((cur, pos));
            },
        }
    }
}

/// Parses argument vectors against a list of top-level commands.
pub struct Parser<'a> {
    /// The top-level commands.
    pub commands: &'a [Command],
}

impl<'a> Parser<'a> {
    /// A parser over `commands`.
    pub fn new(commands: &'a [Command]) -> (p: Self)
        ensures
            p.commands@ == commands@,
    {
        Parser { commands }
    }

    /// Parse `argv`, or `None` where binding the positional values would
    /// panic.
    #[verifier::loop_isolation(false)]
    fn run_parse(&self, argv: &[&str], env: &Vec<(String, String)>) -> (r: Option<
        Result<ParsedCommand<'a>, ParseError>,
    >)
        ensures
            r is None <==> parse_spec(self.commands@, arg_views(argv@), pairs_map(env@)) is Panics,
            r matches Some(x) ==> outcome_matches(
                parse_spec(self.commands@, arg_views(argv@), pairs_map(env@)),
                x,
            ),
    {
        let toks = tokenize(argv);
        let ghost tv = token_views(toks@);
        let first_word = if toks.len() > 0 {
            match &toks[0] {
                Token::Word(w) => Some(w.clone()),
                _ => None,
            }
        } else {
            None
        };
        let w = match first_word {
            Some(w) => w,
            None => {
                proof {
                    if toks@.len() > 0 {
                        assert(tv[0] == toks@[0]@);
                    }
                }
                return Some(Err(ParseError::NoCommand));
            },
        };
        proof {
            assert(tv[0] == toks@[0]@);
        }
        let resolver = Resolver::new(self.commands);
        let top: &'a Command = match resolver.resolve(w.as_str()) {
            Ok(c) => c,
            Err(e) => {
                return Some(Err(ParseError::Resolve(e)));
            },
        };
        let (cmd, pos) = match descend_exec(top, &toks, 1) {
            Ok(x) => x,
            Err(e) => {
                return Some(Err(e));
            },
        };
        let ghost q = tv.subrange(pos as int, tv.len() as int);
        let (positionals, mut flags) = match consume(&cmd.flags, toks, pos) {
            Ok(x) => x,
            Err(e) => {
                return Some(Err(e));
            },
        };
        let args = match bind_arguments(&cmd.arguments, &positionals) {
            None => {
                return None;
            },
            Some(Err(e)) => {
                return Some(Err(e));
            },
            Some(Ok(a)) => a,
        };
        let na = cmd.arguments.len();
        let last_is_variadic = na > 0 && cmd.arguments[na - 1].variadic;
        if positionals.len() > na && !last_is_variadic {
            return Some(Err(ParseError::UnexpectedArgument(positionals[na].clone())));
        }
        match apply_env(&cmd.flags, env, &mut flags) {
            Err(e) => {
                return Some(Err(e));
            },
            Ok(()) => {},
        }
        match check_exclusive(&cmd.exclusive_groups, &flags) {
            Some(e) => {
                return Some(Err(e));
            },
            None => {},
        }
        match finish_flags_exec(&cmd.flags, &mut flags) {
            Err(e) => {
                return Some(Err(e));
            },
            Ok(()) => {},
        }
        Some(Ok(ParsedCommand { command: cmd, args, flags }))
    }

    /// Parse `argv` (the command name first, without the program name), with
    /// the environment variables `env` as name/value pairs for the flags'
    /// environment fallbacks.
    pub fn parse_with_env(&self, argv: &[&str], env: &Vec<(String, String)>) -> (r: Result<
        ParsedCommand<'a>,
        ParseError,
    >)
        requires
            !(parse_spec(self.commands@, arg_views(argv@), pairs_map(env@)) is Panics),
        ensures
            outcome_matches(parse_spec(self.commands@, arg_views(argv@), pairs_map(env@)), r),
    {
        match self.run_parse(argv, env) {
            Some(r) => r,
            None => Err(ParseError::NoCommand),
        }
    }

    /// Parse `argv` with no environment variable set.
    pub fn parse(&self, argv: &[&str]) -> (r: Result<ParsedCommand<'a>, ParseError>)
        requires
            !(parse_spec(self.commands@, arg_views(argv@), Map::empty()) is Panics),
        ensures
            outcome_matches(parse_spec(self.commands@, arg_views(argv@), Map::empty()), r),
    {
        let env: Vec<(String, String)> = Vec::new();
        proof {
            lemma_empty_pairs(env@);
        }
        self.parse_with_env(argv, &env)
    }

    /// Parse `argv` with the environment `env`; `None` exactly where binding
    /// the positional values would panic.
    pub fn parse_checked(&self, argv: &[&str], env: &Vec<(String, String)>) -> (r: Option<
        Result<ParsedCommand<'a>, ParseError>,
    >)
        ensures
            r is None <==> parse_spec(self.commands@, arg_views(argv@), pairs_map(env@)) is Panics,
            r matches Some(x) ==> outcome_matches(
                parse_spec(self.commands@, arg_views(argv@), pairs_map(env@)),
                x,
            ),
    {
        self.run_parse(argv, env)
    }
}

impl<'a> ParsedCommand<'a> {
    /// The value of argument `name`, if bound.
    pub fn arg(&self, name: &str) -> (r: Option<&str>)
        ensures
            r is Some <==> pairs_map(self.args@).contains_key(name@),
            r matches Some(v) ==> v@ == pairs_map(self.args@)[name@],
    {
        let key = String::from_str(name);
        match assoc_lookup(&self.args, &key) {
            Some(v) => Some(v.as_str()),
            None => None,
        }
    }

    /// The value of flag `name`, if set.
    pub fn flag(&self, name: &str) -> (r: Option<&str>)
        ensures
            r is Some <==> pairs_map(self.flags@).contains_key(name@),
            r matches Some(v) ==> v@ == pairs_map(self.flags@)[name@],
    {
        let key = String::from_str(name);
        match assoc_lookup(&self.flags, &key) {
            Some(v) => Some(v.as_str()),
            None => None,
        }
    }

    /// Whether flag `name` is set to `"true"`.
    pub fn flag_bool(&self, name: &str) -> (r: bool)
        ensures
            r == (pairs_map(self.flags@).contains_key(name@) && pairs_map(self.flags@)[name@]
                == seq!['t', 'r', 'u', 'e']),
    {
        let key = String::from_str(name);
        match assoc_lookup(&self.flags, &key) {
            Some(v) => {
                let c = chars_of(v.as_str());
                let r = c.len() == 4 && c[0] == 't' && c[1] == 'r' && c[2] == 'u' && c[3] == 'e';
                proof {
                    if r {
                        assert(v@ =~= seq!['t', 'r', 'u', 'e']);
                    } else if v@ == seq!['t', 'r', 'u', 'e'] {
                        assert(c@[0] == 't');
                    }
                }
                r
            },
            None => false,
        }
    }

    /// The number of times flag `name` was given: 0 when unset or `"false"`,
    /// 1 for `"true"`, else the stored count (0 when not a number).
    pub fn flag_count(&self, name: &str) -> (r: u64)
        ensures
            r == (if !pairs_map(self.flags@).contains_key(name@) {
                0
            } else {
                let v = pairs_map(self.flags@)[name@];
                if v == seq!['t', 'r', 'u', 'e'] {
                    1
                } else if v == seq!['f', 'a', 'l', 's', 'e'] {
                    0
                } else {
                    match u64_value(v) {
                        Some(n) => n,
                        None => 0,
                    }
                }
            }),
    {
        let key = String::from_str(name);
        match assoc_lookup(&self.flags, &key) {
            Some(v) => {
                let c = chars_of(v.as_str());
                let is_true = c.len() == 4 && c[0] == 't' && c[1] == 'r' && c[2] == 'u' && c[3]
                    == 'e';
                let is_false = c.len() == 5 && c[0] == 'f' && c[1] == 'a' && c[2] == 'l' && c[3]
                    == 's' && c[4] == 'e';
                proof {
                    if is_true {
                        assert(v@ =~= seq!['t', 'r', 'u', 'e']);
                    } else if v@ == seq!['t', 'r', 'u', 'e'] {
                        assert(c@[0] == 't');
                    }
                    if is_false {
                        assert(v@ =~= seq!['f', 'a', 'l', 's', 'e']);
                    } else if v@ == seq!['f', 'a', 'l', 's', 'e'] {
                        assert(c@[0] == 'f');
                    }
                }
                if is_true {
                    1
                } else if is_false {
                    0
                } else {
                    match parse_u64(v.as_str()) {
                        Some(n) => n,
                        None => 0,
                    }
                }
            },
            None => 0,
        }
    }

    /// The values of flag `name`: none when unset, the stored JSON list, or
    /// the stored text alone when it is not a JSON list.
    pub fn flag_values(&self, name: &str) -> (r: Vec<String>)
        ensures
            views(r@) == (if !pairs_map(self.flags@).contains_key(name@) {
                seq![]
            } else {
                let v = pairs_map(self.flags@)[name@];
                match json_list_parse(v) {
                    Some(a) => a,
                    None => seq![v],
                }
            }),
    {
        let key = String::from_str(name);
        match assoc_lookup(&self.flags, &key) {
            Some(v) => match decode_string_list(v.as_str()) {
                Some(l) => l,
                None => {
                    let mut l: Vec<String> = Vec::new();
                    l.push(v.clone());
                    proof {
                        assert(views(l@) =~= seq![v@]);
                    }
                    l
                },
            },
            None => {
                let l: Vec<String> = Vec::new();
                proof {
                    assert(views(l@) =~= seq![]);
                }
                l
            },
        }
    }

    /// Whether flag `name` is set (given, from the environment, or by default).
    pub fn has_flag(&self, name: &str) -> (r: bool)
        ensures
            r == pairs_map(self.flags@).contains_key(name@),
    {
        let key = String::from_str(name);
        assoc_lookup(&self.flags, &key).is_some()
    }

    /// The value of argument `name` read as a `T` by `str::parse` (the
    /// error holds the text that did not parse), or `None` when the argument
    /// is not bound.
    pub fn arg_as<T: std::str::FromStr>(&self, name: &str) -> (r: Option<Result<T, String>>)
        ensures
            r is Some <==> pairs_map(self.args@).contains_key(name@),
            r matches Some(Err(t)) ==> t@ == pairs_map(self.args@)[name@],
    {
        match self.arg(name) {
            Some(v) => Some(read_as::<T>(v)),
            None => None,
        }
    }

    /// The value of flag `name` read as a `T` by `str::parse` (the error
    /// holds the text that did not parse), or `None` when the flag is not
    /// set.
    pub fn flag_as<T: std::str::FromStr>(&self, name: &str) -> (r: Option<Result<T, String>>)
        ensures
            r is Some <==> pairs_map(self.flags@).contains_key(name@),
            r matches Some(Err(t)) ==> t@ == pairs_map(self.flags@)[name@],
    {
        match self.flag(name) {
            Some(v) => Some(read_as::<T>(v)),
            None => None,
        }
    }

    /// The value of argument `name` read as a `T`, or `default` when the
    /// argument is not bound or does not parse.
    pub fn arg_as_or<T: std::str::FromStr>(&self, name: &str, default: T) -> (r: T)
        ensures
            !pairs_map(self.args@).contains_key(name@) ==> r == default,
    {
        match self.arg_as::<T>(name) {
            Some(Ok(v)) => v,
            _ => default,
        }
    }

    /// The value of flag `name` read as a `T`, or `default` when the flag is
    /// not set or does not parse.
    pub fn flag_as_or<T: std::str::FromStr>(&self, name: &str, default: T) -> (r: T)
        ensures
            !pairs_map(self.flags@).contains_key(name@) ==> r == default,
    {
        match self.flag_as::<T>(name) {
            Some(Ok(v)) => v,
            _ => default,
        }
    }
}

/// `v` read as a `T`; the error holds the text that did not parse.
fn read_as<T: std::str::FromStr>(v: &str) -> (r: Result<T, String>)
    ensures
        r matches Err(e) ==> e@ == v@,
{
    match parse_as::<T>(v) {
        Some(x) => Ok(x),
        None => Err(String::from_str(v)),
    }
}

/// `s` read by `str::parse::<T>`, `None` where it fails; what it gives
/// depends on `T`'s `FromStr` impl, of which nothing is claimed.
#[verifier::external_body]
fn parse_as<T: std::str::FromStr>(s: &str) -> Option<T> {
    s.parse::<T>().ok()
}


// ── Laws of parsing ─────────────────────────────────────────────────────────

/// No two flags of the list share a long name.
pub open spec fn distinct_flag_names(fl: Seq<Flag>) -> bool {
    forall|a: int, b: int| 0 <= a < b < fl.len() ==> #[trigger] fl[a].name@ != #[trigger] fl[b].name@
}

/// The value the environment gives flag `f`: its variable's value, when the
/// variable is named, set and not empty.
pub open spec fn env_value(f: Flag, env: Map<Seq<char>, Seq<char>>) -> Option<Seq<char>> {
    match f.env {
        Some(var) => match lookup(env, var@) {
            Some(v) => if v.len() > 0 {
                Some(v)
            } else {
                None
            },
            None => None,
        },
        None => None,
    }
}

/// The environment phase keeps every flag already set, sets only flags of
/// the list, and gives an unset flag its environment value (names being
/// distinct).
pub proof fn lemma_env_from(
    fl: Seq<Flag>,
    env: Map<Seq<char>, Seq<char>>,
    flags: Map<Seq<char>, Seq<char>>,
    i: int,
)
    requires
        0 <= i,
    ensures
        env_from(fl, env, flags, i) matches Ok(f1) ==> {
            &&& forall|k: Seq<char>| #[trigger] flags.contains_key(k) ==> f1.contains_key(k) && f1[k] == flags[k]
            &&& forall|k: Seq<char>| #[trigger] f1.contains_key(k) ==> flags.contains_key(k) || exists|j: int|
                i <= j < fl.len() && #[trigger] fl[j].name@ == k
            &&& distinct_flag_names(fl) ==> forall|j: int|
                i <= j < fl.len() && !flags.contains_key(#[trigger] fl[j].name@) && env_value(fl[j], env) is Some
                    ==> f1.contains_key(fl[j].name@) && f1[fl[j].name@] == env_value(fl[j], env).unwrap()
        },
    decreases fl.len() - i,
{
    if i < fl.len() {
        let f = fl[i];
        let candidate = match f.env {
            Some(var) => lookup(env, var@),
            None => None,
        };
        if !flags.contains_key(f.name@) && candidate is Some && candidate.unwrap().len() > 0 {
            let v = candidate.unwrap();
            if choice_error(f, v) is None {
                let next = flags.insert(f.name@, v);
                lemma_env_from(fl, env, next, i + 1);
                if let Ok(f1) = env_from(fl, env, flags, i) {
                    assert(env_from(fl, env, flags, i) == env_from(fl, env, next, i + 1));
                    assert forall|k: Seq<char>| #[trigger] flags.contains_key(k) implies f1.contains_key(k)
                        && f1[k] == flags[k] by {
                        assert(next.contains_key(k) && next[k] == flags[k]);
                    }
                    assert forall|k: Seq<char>| #[trigger] f1.contains_key(k) implies flags.contains_key(k)
                        || exists|j: int| i <= j < fl.len() && #[trigger] fl[j].name@ == k by {
                        if !flags.contains_key(k) && k == f.name@ {
                            assert(fl[i].name@ == k);
                        }
                    }
                    if distinct_flag_names(fl) {
                        assert forall|j: int|
                            i <= j < fl.len() && !flags.contains_key(#[trigger] fl[j].name@)
                                && env_value(fl[j], env) is Some implies f1.contains_key(fl[j].name@)
                            && f1[fl[j].name@] == env_value(fl[j], env).unwrap() by {
                            if j > i {
                                assert(fl[i].name@ != fl[j].name@);
                                assert(!next.contains_key(fl[j].name@));
                            } else {
                                assert(next.contains_key(f.name@));
                            }
                        }
                    }
                }
            }
        } else {
            lemma_env_from(fl, env, flags, i + 1);
        }
    }
}

/// The last phase keeps every flag already set and sets every required
/// flag; names being distinct, an unset flag with a default takes it, and
/// the phase fails exactly when a required flag is unset, with that flag.
pub proof fn lemma_finish_flags(fl: Seq<Flag>, flags: Map<Seq<char>, Seq<char>>, i: int)
    requires
        0 <= i,
    ensures
        finish_flags(fl, flags, i) matches Ok(f2) ==> {
            &&& forall|k: Seq<char>| #[trigger] flags.contains_key(k) ==> f2.contains_key(k) && f2[k] == flags[k]
            &&& forall|j: int| i <= j < fl.len() && #[trigger] fl[j].required ==> f2.contains_key(fl[j].name@)
            &&& distinct_flag_names(fl) ==> forall|j: int|
                i <= j < fl.len() && !flags.contains_key(#[trigger] fl[j].name@) && fl[j].default is Some
                    ==> f2.contains_key(fl[j].name@) && f2[fl[j].name@] == fl[j].default.unwrap()@
        },
        finish_flags(fl, flags, i) matches Err(e) ==> exists|j: int|
            i <= j < fl.len() && #[trigger] fl[j].required && !flags.contains_key(fl[j].name@) && e
                == ParseErrorView::MissingFlag(fl[j].name@),
        distinct_flag_names(fl) ==> (finish_flags(fl, flags, i) is Err <==> exists|j: int|
            i <= j < fl.len() && #[trigger] fl[j].required && !flags.contains_key(fl[j].name@)),
    decreases fl.len() - i,
{
    if i < fl.len() {
        let f = fl[i];
        if f.required && !flags.contains_key(f.name@) {
            assert(fl[i].required && !flags.contains_key(fl[i].name@));
        } else if !flags.contains_key(f.name@) && f.default is Some {
            let next = flags.insert(f.name@, f.default.unwrap()@);
            lemma_finish_flags(fl, next, i + 1);
            assert(finish_flags(fl, flags, i) == finish_flags(fl, next, i + 1));
            if let Ok(f2) = finish_flags(fl, flags, i) {
                assert forall|k: Seq<char>| #[trigger] flags.contains_key(k) implies f2.contains_key(k)
                    && f2[k] == flags[k] by {
                    assert(next.contains_key(k) && next[k] == flags[k]);
                }
                assert forall|j: int| i <= j < fl.len() && #[trigger] fl[j].required implies f2.contains_key(
                    fl[j].name@,
                ) by {
                    if j == i {
                        assert(next.contains_key(fl[i].name@));
                    }
                }
                if distinct_flag_names(fl) {
                    assert forall|j: int|
                        i <= j < fl.len() && !flags.contains_key(#[trigger] fl[j].name@)
                            && fl[j].default is Some implies f2.contains_key(fl[j].name@)
                        && f2[fl[j].name@] == fl[j].default.unwrap()@ by {
                        if j > i {
                            assert(fl[i].name@ != fl[j].name@);
                        } else {
                            assert(next.contains_key(f.name@));
                        }
                    }
                }
            }
            if let Err(e) = finish_flags(fl, flags, i) {
                let j = choose|j: int|
                    i + 1 <= j < fl.len() && #[trigger] fl[j].required && !next.contains_key(fl[j].name@) && e
                        == ParseErrorView::MissingFlag(fl[j].name@);
                assert(!flags.contains_key(fl[j].name@));
            }
            if distinct_flag_names(fl) {
                if exists|j: int| i <= j < fl.len() && #[trigger] fl[j].required && !flags.contains_key(fl[j].name@) {
                    let j = choose|j: int|
                        i <= j < fl.len() && #[trigger] fl[j].required && !flags.contains_key(fl[j].name@);
                    if j == i {
                        assert(false);
                    }
                    assert(fl[i].name@ != fl[j].name@);
                    assert(!next.contains_key(fl[j].name@));
                }
            }
        } else {
            lemma_finish_flags(fl, flags, i + 1);
            if let Ok(f2) = finish_flags(fl, flags, i) {
                assert forall|j: int| i <= j < fl.len() && #[trigger] fl[j].required implies f2.contains_key(
                    fl[j].name@,
                ) by {
                    if j == i {
                        assert(flags.contains_key(fl[i].name@));
                    }
                }
            }
            if distinct_flag_names(fl) {
                if exists|j: int| i <= j < fl.len() && #[trigger] fl[j].required && !flags.contains_key(fl[j].name@) {
                    let j = choose|j: int|
                        i <= j < fl.len() && #[trigger] fl[j].required && !flags.contains_key(fl[j].name@);
                    assert(j != i);
                }
            }
        }
    }
}

/// Binding keeps the entries already bound and, where only the last
/// argument may be variadic, binds every required argument.
pub proof fn lemma_bind_required(
    args: Seq<Argument>,
    pos: Seq<Seq<char>>,
    i: int,
    acc: Map<Seq<char>, Seq<char>>,
)
    requires
        0 <= i,
        forall|j: int| 0 <= j < args.len() - 1 ==> !(#[trigger] args[j]).variadic,
    ensures
        bind_from(args, pos, i, acc) matches Bound::Args(m) ==> {
            &&& forall|k: Seq<char>| #[trigger] acc.contains_key(k) ==> m.contains_key(k)
            &&& forall|j: int| i <= j < args.len() && #[trigger] args[j].required ==> m.contains_key(args[j].name@)
        },
    decreases args.len() - i,
{
    if i < args.len() {
        let a = args[i];
        if a.variadic {
            assert(i == args.len() - 1);
        } else {
            let next = if i < pos.len() {
                acc.insert(a.name@, pos[i])
            } else {
                match a.default {
                    Some(d) => acc.insert(a.name@, d@),
                    None => acc,
                }
            };
            if i < pos.len() || !a.required {
                lemma_bind_required(args, pos, i + 1, next);
                assert(bind_from(args, pos, i, acc) == bind_from(args, pos, i + 1, next));
                if let Bound::Args(m) = bind_from(args, pos, i, acc) {
                    assert forall|k: Seq<char>| #[trigger] acc.contains_key(k) implies m.contains_key(k) by {
                        assert(next.contains_key(k));
                    }
                    assert forall|j: int| i <= j < args.len() && #[trigger] args[j].required implies m.contains_key(
                        args[j].name@,
                    ) by {
                        if j == i {
                            assert(next.contains_key(a.name@));
                        }
                    }
                }
            }
        }
    }
}

/// Only the last argument is variadic.
pub open spec fn variadic_last(args: Seq<Argument>) -> bool {
    forall|j: int| 0 <= j < args.len() - 1 ==> !(#[trigger] args[j]).variadic
}

/// A successful parse binds every required argument and sets every required
/// flag of the command it reaches (arguments: where only the last argument
/// of that command may be variadic, as `build` ensures).
pub proof fn lemma_parsed_has_required(
    cmds: Seq<Command>,
    argv: Seq<Seq<char>>,
    env: Map<Seq<char>, Seq<char>>,
)
    ensures
        parse_spec(cmds, argv, env) matches ParseOutcome::Parsed(c, a, f) ==> {
            &&& forall|j: int| 0 <= j < c.flags@.len() && #[trigger] c.flags@[j].required ==> f.contains_key(
                c.flags@[j].name@,
            )
            &&& variadic_last(c.arguments@) ==> forall|j: int|
                0 <= j < c.arguments@.len() && #[trigger] c.arguments@[j].required ==> a.contains_key(
                    c.arguments@[j].name@,
                )
        },
{
    let toks = tokenize_spec(argv);
    if toks.len() > 0 && toks[0] is Word {
        let w = toks[0]->Word_0;
        if let Resolution::Found(i) = resolution(cmds, w) {
            if let Ok((cmd, pos)) = descend(cmds[i], toks, 1) {
                lemma_finish_required(cmd, toks.subrange(pos, toks.len() as int), env);
            }
        }
    }
}

/// The phases after the command is known: a parsed outcome names that
/// command, with its required flags set and (only the last argument being
/// variadic) its required arguments bound.
pub proof fn lemma_finish_required(cmd: Command, q: Seq<TokenView>, env: Map<Seq<char>, Seq<char>>)
    ensures
        finish_spec(cmd, q, env) matches ParseOutcome::Parsed(c, a, f) ==> {
            &&& c == cmd
            &&& forall|j: int| 0 <= j < c.flags@.len() && #[trigger] c.flags@[j].required ==> f.contains_key(
                c.flags@[j].name@,
            )
            &&& variadic_last(c.arguments@) ==> forall|j: int|
                0 <= j < c.arguments@.len() && #[trigger] c.arguments@[j].required ==> a.contains_key(
                    c.arguments@[j].name@,
                )
        },
{
    if let Ok(st) = run_tokens(cmd.flags@, initial_state(), q) {
        if variadic_last(cmd.arguments@) {
            lemma_bind_required(cmd.arguments@, st.positionals, 0, Map::empty());
        }
        if let Bound::Args(args) = bind_from(cmd.arguments@, st.positionals, 0, Map::empty()) {
            if let Ok(f1) = env_from(cmd.flags@, env, st.flags, 0) {
                lemma_finish_flags(cmd.flags@, f1, 0);
            }
        }
    }
}

/// The flag lookup order of a successful parse (flag names being distinct,
/// as `build` ensures): a flag given on the command line keeps that value;
/// otherwise it takes its environment variable's value, when that is set
/// and not empty; otherwise its default; and a required flag is always set.
pub proof fn lemma_flag_lookup_order(cmd: Command, q: Seq<TokenView>, env: Map<Seq<char>, Seq<char>>)
    requires
        distinct_flag_names(cmd.flags@),
    ensures
        run_tokens(cmd.flags@, initial_state(), q) matches Ok(st) ==> (finish_spec(cmd, q, env) matches ParseOutcome::Parsed(
            c,
            a,
            f,
        ) ==> forall|j: int| 0 <= j < cmd.flags@.len() ==> {
            let fj = #[trigger] cmd.flags@[j];
            let n = fj.name@;
            &&& st.flags.contains_key(n) ==> f.contains_key(n) && f[n] == st.flags[n]
            &&& !st.flags.contains_key(n) && env_value(fj, env) is Some ==> f[n] == env_value(fj, env).unwrap()
            &&& !st.flags.contains_key(n) && env_value(fj, env) is None && fj.default is Some ==> f[n]
                == fj.default.unwrap()@
            &&& fj.required ==> f.contains_key(n)
        }),
{
    if let Ok(st) = run_tokens(cmd.flags@, initial_state(), q) {
        if let Bound::Args(args) = bind_from(cmd.arguments@, st.positionals, 0, Map::empty()) {
            lemma_env_from(cmd.flags@, env, st.flags, 0);
            if let Ok(f1) = env_from(cmd.flags@, env, st.flags, 0) {
                lemma_finish_flags(cmd.flags@, f1, 0);
                lemma_env_keys(cmd.flags@, env, st.flags, 0);
                if let ParseOutcome::Parsed(c, a, f) = finish_spec(cmd, q, env) {
                    assert(finish_flags(cmd.flags@, f1, 0) == Ok::<Map<Seq<char>, Seq<char>>, ParseErrorView>(f));
                    assert forall|j: int| 0 <= j < cmd.flags@.len() implies {
                        let fj = #[trigger] cmd.flags@[j];
                        let n = fj.name@;
                        &&& st.flags.contains_key(n) ==> f.contains_key(n) && f[n] == st.flags[n]
                        &&& !st.flags.contains_key(n) && env_value(fj, env) is Some ==> f[n]
                            == env_value(fj, env).unwrap()
                        &&& !st.flags.contains_key(n) && env_value(fj, env) is None && fj.default is Some
                            ==> f[n] == fj.default.unwrap()@
                        &&& fj.required ==> f.contains_key(n)
                    } by {
                        let fj = cmd.flags@[j];
                        let n = fj.name@;
                        if !st.flags.contains_key(n) && env_value(fj, env) is Some {
                            assert(f1.contains_key(n));
                        }
                        if !st.flags.contains_key(n) && env_value(fj, env) is None {
                            assert(!f1.contains_key(n));
                        }
                    }
                }
            }
        }
    }
}

/// The environment phase sets an unset flag only from a non-empty
/// environment value (names being distinct).
pub proof fn lemma_env_keys(
    fl: Seq<Flag>,
    env: Map<Seq<char>, Seq<char>>,
    flags: Map<Seq<char>, Seq<char>>,
    i: int,
)
    requires
        0 <= i,
        distinct_flag_names(fl),
    ensures
        env_from(fl, env, flags, i) matches Ok(f1) ==> forall|j: int|
            i <= j < fl.len() && !flags.contains_key(#[trigger] fl[j].name@) && env_value(fl[j], env) is None
                ==> !f1.contains_key(fl[j].name@),
    decreases fl.len() - i,
{
    if i < fl.len() {
        let f = fl[i];
        let candidate = match f.env {
            Some(var) => lookup(env, var@),
            None => None,
        };
        if !flags.contains_key(f.name@) && candidate is Some && candidate.unwrap().len() > 0 {
            let v = candidate.unwrap();
            if choice_error(f, v) is None {
                let next = flags.insert(f.name@, v);
                lemma_env_keys(fl, env, next, i + 1);
                if let Ok(f1) = env_from(fl, env, flags, i) {
                    assert forall|j: int|
                        i <= j < fl.len() && !flags.contains_key(#[trigger] fl[j].name@) && env_value(fl[j], env)
                            is None implies !f1.contains_key(fl[j].name@) by {
                        if j == i {
                            assert(env_value(fl[i], env) is Some);
                        } else {
                            assert(fl[i].name@ != fl[j].name@);
                        }
                    }
                }
            }
        } else {
            lemma_env_keys(fl, env, flags, i + 1);
            if let Ok(f1) = env_from(fl, env, flags, i) {
                assert forall|j: int|
                    i <= j < fl.len() && !flags.contains_key(#[trigger] fl[j].name@) && env_value(fl[j], env) is None
                        implies !f1.contains_key(fl[j].name@) by {
                    if j == i {
                        lemma_env_from(fl, env, flags, i + 1);
                        assert(!flags.contains_key(fl[i].name@));
                        assert(forall|k: Seq<char>| #[trigger] f1.contains_key(k) ==> flags.contains_key(k)
                            || exists|jj: int| i + 1 <= jj < fl.len() && #[trigger] fl[jj].name@ == k);
                        if f1.contains_key(fl[i].name@) {
                            let jj = choose|jj: int| i + 1 <= jj < fl.len() && #[trigger] fl[jj].name@ == fl[i].name@;
                            assert(fl[i].name@ != fl[jj].name@);
                        }
                    }
                }
            }
        }
    }
}

/// Mutual exclusivity: the check passes exactly when every group has at
/// most one of its flags set; otherwise it reports the first group with
/// several set, listing at least two of them as `--name`, each set.
pub proof fn lemma_exclusive_error(groups: Seq<Vec<String>>, flags: Map<Seq<char>, Seq<char>>)
    ensures
        exclusive_error(groups, flags) is None <==> forall|g: int|
            0 <= g < groups.len() ==> given_in_group(#[trigger] groups[g]@, flags).len() <= 1,
        exclusive_error(groups, flags) matches Some(e) ==> e matches ParseErrorView::MutuallyExclusive(l)
            && l.len() >= 2 && exists|g: int|
            0 <= g < groups.len() && l == given_in_group(#[trigger] groups[g]@, flags),
{
    let n = groups.len() as int;
    crate::model::lemma_first_where_spec(0, n, conflicting(groups, flags));
    let g = first_where(0, n, conflicting(groups, flags));
    if g >= n {
        assert forall|h: int| 0 <= h < groups.len() implies given_in_group(
            #[trigger] groups[h]@,
            flags,
        ).len() <= 1 by {
            assert(!conflicting(groups, flags)(h));
        }
    } else {
        assert(conflicting(groups, flags)(g));
    }
}

/// Some flag of `fl` is named `k`.
pub open spec fn flag_declared(fl: Seq<Flag>, k: Seq<char>) -> bool {
    exists|j: int| 0 <= j < fl.len() && #[trigger] fl[j].name@ == k
}

/// Some argument of `args` is named `k`.
pub open spec fn argument_declared(args: Seq<Argument>, k: Seq<char>) -> bool {
    exists|j: int| 0 <= j < args.len() && #[trigger] args[j].name@ == k
}

/// Every key of `m` names a flag of `fl`.
pub open spec fn keys_declared(fl: Seq<Flag>, m: Map<Seq<char>, Seq<char>>) -> bool {
    forall|k: Seq<char>| #[trigger] m.contains_key(k) ==> flag_declared(fl, k)
}

/// A step only sets flags of the list.
proof fn lemma_step_declared(fl: Seq<Flag>, st: ParseState, q: Seq<TokenView>)
    requires
        q.len() > 0,
        keys_declared(fl, st.flags),
    ensures
        step(fl, st, q) matches Step::Next(st2, _) ==> keys_declared(fl, st2.flags),
{
    let nf = fl.len() as int;
    match q[0] {
        TokenView::LongFlag(name, value) => {
            let sub = name.subrange(3, name.len() as int);
            crate::model::lemma_first_where_spec(0, nf, bool_named(fl, sub));
            crate::model::lemma_first_where_spec(0, nf, named(fl, name));
            let ib = first_where(0, nf, bool_named(fl, sub));
            let i = first_where(0, nf, named(fl, name));
            if ib < nf {
                assert(fl[ib].name@ == fl[ib].name@);
            }
            if i < nf {
                assert(fl[i].name@ == fl[i].name@);
            }
            if let Step::Next(st2, _) = step(fl, st, q) {
                assert forall|k: Seq<char>| #[trigger] st2.flags.contains_key(k) implies flag_declared(fl, k) by {
                    if !st.flags.contains_key(k) {
                        if starts_with(name, seq!['n', 'o', '-']) && ib < nf {
                            assert(fl[ib].name@ == k);
                        } else {
                            assert(fl[i].name@ == k);
                        }
                    }
                }
            }
        },
        TokenView::ShortFlag(c, value) => {
            crate::model::lemma_first_where_spec(0, nf, with_short(fl, c));
            let i = first_where(0, nf, with_short(fl, c));
            if let Step::Next(st2, _) = step(fl, st, q) {
                assert forall|k: Seq<char>| #[trigger] st2.flags.contains_key(k) implies flag_declared(fl, k) by {
                    if !st.flags.contains_key(k) {
                        assert(fl[i].name@ == k);
                    }
                }
            }
        },
        _ => {},
    }
}

/// Consuming the tokens only sets flags of the list.
proof fn lemma_run_tokens_declared(fl: Seq<Flag>, st: ParseState, q: Seq<TokenView>)
    requires
        keys_declared(fl, st.flags),
    ensures
        run_tokens(fl, st, q) matches Ok(st2) ==> keys_declared(fl, st2.flags),
    decreases queue_weight(q),
{
    if q.len() > 0 {
        lemma_step_declared(fl, st, q);
        if let Step::Next(st2, q2) = step(fl, st, q) {
            lemma_step_shrinks(fl, st, q);
            lemma_run_tokens_declared(fl, st2, q2);
        }
    }
}

/// The last phase only sets flags of the list, and sets every flag that has
/// a default.
proof fn lemma_finish_keys(fl: Seq<Flag>, flags: Map<Seq<char>, Seq<char>>, i: int)
    requires
        0 <= i,
    ensures
        finish_flags(fl, flags, i) matches Ok(f2) ==> {
            &&& forall|k: Seq<char>| #[trigger] f2.contains_key(k) ==> flags.contains_key(k) || flag_declared(fl, k)
            &&& forall|j: int| i <= j < fl.len() && (#[trigger] fl[j]).default is Some ==> f2.contains_key(fl[j].name@)
        },
    decreases fl.len() - i,
{
    if i < fl.len() {
        let f = fl[i];
        assert(fl[i].name@ == f.name@);
        if f.required && !flags.contains_key(f.name@) {
        } else if !flags.contains_key(f.name@) && f.default is Some {
            let next = flags.insert(f.name@, f.default.unwrap()@);
            lemma_finish_keys(fl, next, i + 1);
            lemma_finish_flags(fl, next, i + 1);
            if let Ok(f2) = finish_flags(fl, flags, i) {
                assert forall|j: int| i <= j < fl.len() && (#[trigger] fl[j]).default is Some implies f2.contains_key(
                    fl[j].name@,
                ) by {
                    if j == i {
                        assert(next.contains_key(f.name@));
                    }
                }
            }
        } else {
            lemma_finish_keys(fl, flags, i + 1);
            lemma_finish_flags(fl, flags, i + 1);
            if let Ok(f2) = finish_flags(fl, flags, i) {
                assert forall|j: int| i <= j < fl.len() && (#[trigger] fl[j]).default is Some implies f2.contains_key(
                    fl[j].name@,
                ) by {
                    if j == i {
                        assert(flags.contains_key(f.name@));
                    }
                }
            }
        }
    }
}

/// Binding only binds arguments of the list and, where only the last
/// argument may be variadic, binds every argument that has a default.
proof fn lemma_bind_keys(args: Seq<Argument>, pos: Seq<Seq<char>>, i: int, acc: Map<Seq<char>, Seq<char>>)
    requires
        0 <= i,
    ensures
        bind_from(args, pos, i, acc) matches Bound::Args(m) ==> {
            &&& forall|k: Seq<char>| #[trigger] m.contains_key(k) ==> acc.contains_key(k) || argument_declared(args, k)
            &&& variadic_last(args) ==> forall|j: int|
                i <= j < args.len() && (#[trigger] args[j]).default is Some ==> m.contains_key(args[j].name@)
        },
    decreases args.len() - i,
{
    if i < args.len() {
        let a = args[i];
        assert(args[i].name@ == a.name@);
        if a.variadic {
            if let Bound::Args(m) = bind_from(args, pos, i, acc) {
                if variadic_last(args) {
                    assert(i == args.len() - 1);
                }
            }
        } else {
            let next = if i < pos.len() {
                acc.insert(a.name@, pos[i])
            } else {
                match a.default {
                    Some(d) => acc.insert(a.name@, d@),
                    None => acc,
                }
            };
            if i < pos.len() || !a.required {
                lemma_bind_keys(args, pos, i + 1, next);
                assert(bind_from(args, pos, i, acc) == bind_from(args, pos, i + 1, next));
                if let Bound::Args(m) = bind_from(args, pos, i, acc) {
                    assert forall|k: Seq<char>| #[trigger] m.contains_key(k) implies acc.contains_key(k)
                        || argument_declared(args, k) by {
                    }
                    if variadic_last(args) {
                        lemma_bind_required(args, pos, i + 1, next);
                        assert forall|j: int|
                            i <= j < args.len() && (#[trigger] args[j]).default is Some implies m.contains_key(
                            args[j].name@,
                        ) by {
                            if j == i {
                                assert(next.contains_key(a.name@));
                            }
                        }
                    }
                }
            }
        }
    }
}

/// A successful parse sets only flags of the command it reaches and binds
/// only its arguments; every flag with a default is set, and (only the last
/// argument being variadic, as `build` ensures) every argument with a
/// default is bound.
pub proof fn lemma_parsed_keys(cmds: Seq<Command>, argv: Seq<Seq<char>>, env: Map<Seq<char>, Seq<char>>)
    ensures
        parse_spec(cmds, argv, env) matches ParseOutcome::Parsed(c, a, f) ==> {
            &&& forall|k: Seq<char>| #[trigger] f.contains_key(k) ==> flag_declared(c.flags@, k)
            &&& forall|k: Seq<char>| #[trigger] a.contains_key(k) ==> argument_declared(c.arguments@, k)
            &&& forall|j: int| 0 <= j < c.flags@.len() && (#[trigger] c.flags@[j]).default is Some ==> f.contains_key(
                c.flags@[j].name@,
            )
            &&& variadic_last(c.arguments@) ==> forall|j: int|
                0 <= j < c.arguments@.len() && (#[trigger] c.arguments@[j]).default is Some ==> a.contains_key(
                    c.arguments@[j].name@,
                )
        },
{
    let toks = tokenize_spec(argv);
    if toks.len() > 0 && toks[0] is Word {
        let w = toks[0]->Word_0;
        if let Resolution::Found(i) = resolution(cmds, w) {
            if let Ok((cmd, pos)) = descend(cmds[i], toks, 1) {
                let q = toks.subrange(pos, toks.len() as int);
                lemma_finish_required(cmd, q, env);
                lemma_run_tokens_declared(cmd.flags@, initial_state(), q);
                if let Ok(st) = run_tokens(cmd.flags@, initial_state(), q) {
                    lemma_bind_keys(cmd.arguments@, st.positionals, 0, Map::empty());
                    lemma_env_from(cmd.flags@, env, st.flags, 0);
                    if let Ok(f1) = env_from(cmd.flags@, env, st.flags, 0) {
                        lemma_finish_keys(cmd.flags@, f1, 0);
                        assert forall|k: Seq<char>| #[trigger] f1.contains_key(k) implies flag_declared(cmd.flags@, k) by {
                            if !st.flags.contains_key(k) {
                                let j = choose|j: int| 0 <= j < cmd.flags@.len() && #[trigger] cmd.flags@[j].name@ == k;
                            }
                        }
                    }
                }
            }
        }
    }
}

/// The flags the command line itself sets once the command is reached,
/// before the environment and defaults fill in the rest; `None` where the
/// parse stops before that.
pub open spec fn command_line_flags(cmds: Seq<Command>, argv: Seq<Seq<char>>) -> Option<
    Map<Seq<char>, Seq<char>>,
> {
    let toks = tokenize_spec(argv);
    if toks.len() == 0 || !(toks[0] is Word) {
        None
    } else {
        match resolution(cmds, toks[0]->Word_0) {
            Resolution::Found(i) => match descend(cmds[i], toks, 1) {
                Ok((cmd, pos)) => match run_tokens(
                    cmd.flags@,
                    initial_state(),
                    toks.subrange(pos, toks.len() as int),
                ) {
                    Ok(st) => Some(st.flags),
                    Err(_) => None,
                },
                Err(_) => None,
            },
            _ => None,
        }
    }
}

/// The flag lookup order of [`Parser::parse_with_env`] (flag names being
/// distinct, as `build` ensures): a flag given on the command line keeps
/// that value; otherwise it takes its environment variable's value, when
/// set and not empty; otherwise its default; a required flag is always set.
pub proof fn lemma_parse_flag_lookup_order(
    cmds: Seq<Command>,
    argv: Seq<Seq<char>>,
    env: Map<Seq<char>, Seq<char>>,
)
    ensures
        parse_spec(cmds, argv, env) matches ParseOutcome::Parsed(c, a, f) ==> (distinct_flag_names(c.flags@)
            ==> (command_line_flags(cmds, argv) matches Some(given) && forall|j: int|
            0 <= j < c.flags@.len() ==> {
                let fj = #[trigger] c.flags@[j];
                let n = fj.name@;
                &&& given.contains_key(n) ==> f.contains_key(n) && f[n] == given[n]
                &&& !given.contains_key(n) && env_value(fj, env) is Some ==> f[n] == env_value(fj, env).unwrap()
                &&& !given.contains_key(n) && env_value(fj, env) is None && fj.default is Some ==> f[n]
                    == fj.default.unwrap()@
                &&& fj.required ==> f.contains_key(n)
            })),
{
    let toks = tokenize_spec(argv);
    if toks.len() > 0 && toks[0] is Word {
        let w = toks[0]->Word_0;
        if let Resolution::Found(i) = resolution(cmds, w) {
            if let Ok((cmd, pos)) = descend(cmds[i], toks, 1) {
                let q = toks.subrange(pos, toks.len() as int);
                lemma_finish_required(cmd, q, env);
                if distinct_flag_names(cmd.flags@) {
                    lemma_flag_lookup_order(cmd, q, env);
                }
            }
        }
    }
}

// ── Laws of token consumption and binding ──────────────────────────────────

/// Plain words are positional values: consuming only words appends them,
/// in order, to the positional values and leaves the flags alone.
pub proof fn lemma_words_are_positionals(fl: Seq<Flag>, st: ParseState, ws: Seq<Seq<char>>)
    ensures
        run_tokens(fl, st, ws.map_values(|w: Seq<char>| TokenView::Word(w))) == Ok::<
            ParseState,
            ParseErrorView,
        >(ParseState { positionals: st.positionals + ws, flags: st.flags }),
    decreases ws.len(),
{
    let q = ws.map_values(|w: Seq<char>| TokenView::Word(w));
    if ws.len() == 0 {
        assert(st.positionals + ws =~= st.positionals);
    } else {
        let st2 = ParseState { positionals: st.positionals.push(ws[0]), flags: st.flags };
        assert(q.drop_first() =~= ws.drop_first().map_values(|w: Seq<char>| TokenView::Word(w)));
        assert(step(fl, st, q) == Step::Next(st2, q.drop_first()));
        lemma_words_are_positionals(fl, st2, ws.drop_first());
        assert(st.positionals.push(ws[0]) + ws.drop_first() =~= st.positionals + ws);
    }
}

/// `--` is skipped: the tokens after it are consumed as they come.
pub proof fn lemma_separator_skipped(fl: Seq<Flag>, st: ParseState, rest: Seq<TokenView>)
    ensures
        run_tokens(fl, st, seq![TokenView::Separator] + rest) == run_tokens(fl, st, rest),
{
    let q = seq![TokenView::Separator] + rest;
    assert(q.drop_first() =~= rest);
    assert(step(fl, st, q) == Step::Next(st, rest));
}

/// The first flag declared under `name`, at index `i`.
pub open spec fn first_named(fl: Seq<Flag>, name: Seq<char>, i: int) -> bool {
    &&& 0 <= i < fl.len()
    &&& fl[i].name@ == name
    &&& forall|k: int| 0 <= k < i ==> (#[trigger] fl[k]).name@ != name
}

/// A value-taking flag that is not repeatable and allows any value stores
/// its value under its name, whether given inline (`--name=value`) or as
/// the next word (`--name value`, which consumes that word); with no value
/// and no next word it is a missing-value error.
pub proof fn lemma_long_value_flag(
    fl: Seq<Flag>,
    st: ParseState,
    name: Seq<char>,
    i: int,
    v: Seq<char>,
    rest: Seq<TokenView>,
)
    requires
        first_named(fl, name, i),
        fl[i].takes_value,
        !fl[i].repeatable,
        fl[i].choices is None,
        !starts_with(name, seq!['n', 'o', '-']),
    ensures
        step(fl, st, seq![TokenView::LongFlag(name, Some(v))] + rest) == Step::Next(
            ParseState { positionals: st.positionals, flags: st.flags.insert(name, v) },
            rest,
        ),
        step(fl, st, seq![TokenView::LongFlag(name, None), TokenView::Word(v)] + rest) == Step::Next(
            ParseState { positionals: st.positionals, flags: st.flags.insert(name, v) },
            rest,
        ),
        step(fl, st, seq![TokenView::LongFlag(name, None)]) == Step::Stop(
            ParseErrorView::FlagMissingValue(name),
        ),
{
    lemma_first_where_spec(0, fl.len() as int, named(fl, name));
    lemma_first_where_at(0, fl.len() as int, named(fl, name), i);
    let q1 = seq![TokenView::LongFlag(name, Some(v))] + rest;
    assert(q1[0] == TokenView::LongFlag(name, Some(v)));
    assert(q1.drop_first() =~= rest);
    let q2 = seq![TokenView::LongFlag(name, None), TokenView::Word(v)] + rest;
    assert(q2[0] == TokenView::LongFlag(name, None));
    assert(q2.drop_first()[0] == TokenView::Word(v));
    assert(q2.drop_first().drop_first() =~= rest);
    let q3 = seq![TokenView::LongFlag(name, None)];
    assert(q3.drop_first().len() == 0);
}

/// A boolean flag that is not repeatable and allows any value is stored as
/// `true` when given as `--name`; `--no-name` stores `false` for it.
pub proof fn lemma_long_bool_flag(fl: Seq<Flag>, st: ParseState, name: Seq<char>, i: int, rest: Seq<TokenView>)
    requires
        first_named(fl, name, i),
        !fl[i].takes_value,
        !fl[i].repeatable,
        fl[i].choices is None,
        !starts_with(name, seq!['n', 'o', '-']),
    ensures
        step(fl, st, seq![TokenView::LongFlag(name, None)] + rest) == Step::Next(
            ParseState { positionals: st.positionals, flags: st.flags.insert(name, "true"@) },
            rest,
        ),
        step(fl, st, seq![TokenView::LongFlag(seq!['n', 'o', '-'] + name, None)] + rest) == Step::Next(
            ParseState { positionals: st.positionals, flags: st.flags.insert(name, "false"@) },
            rest,
        ),
{
    reveal_strlit("true");
    reveal_strlit("false");
    assert("true"@ =~= seq!['t', 'r', 'u', 'e']);
    assert("false"@ =~= seq!['f', 'a', 'l', 's', 'e']);
    lemma_first_where_spec(0, fl.len() as int, named(fl, name));
    lemma_first_where_at(0, fl.len() as int, named(fl, name), i);
    let q1 = seq![TokenView::LongFlag(name, None)] + rest;
    assert(q1[0] == TokenView::LongFlag(name, None));
    assert(q1.drop_first() =~= rest);
    let nn = seq!['n', 'o', '-'] + name;
    assert(nn.subrange(3, nn.len() as int) =~= name);
    assert(starts_with(nn, seq!['n', 'o', '-'])) by {
        assert(nn.subrange(0, 3) =~= seq!['n', 'o', '-']);
    }
    lemma_first_where_spec(0, fl.len() as int, bool_named(fl, name));
    lemma_first_where_at(0, fl.len() as int, bool_named(fl, name), i);
    let q2 = seq![TokenView::LongFlag(nn, None)] + rest;
    assert(q2[0] == TokenView::LongFlag(nn, None));
    assert(q2.drop_first() =~= rest);
}

/// A long flag that no flag of the command declares (and that is not the
/// `no-` form of a declared boolean flag) is an unknown-flag error naming
/// it with its dashes.
pub proof fn lemma_unknown_long_flag(
    fl: Seq<Flag>,
    st: ParseState,
    name: Seq<char>,
    value: Option<Seq<char>>,
    rest: Seq<TokenView>,
)
    requires
        forall|k: int| 0 <= k < fl.len() ==> (#[trigger] fl[k]).name@ != name,
        !starts_with(name, seq!['n', 'o', '-']),
    ensures
        step(fl, st, seq![TokenView::LongFlag(name, value)] + rest) == Step::Stop(
            ParseErrorView::UnknownFlag(seq!['-', '-'] + name),
        ),
{
    lemma_first_where_spec(0, fl.len() as int, named(fl, name));
    let q = seq![TokenView::LongFlag(name, value)] + rest;
    assert(q[0] == TokenView::LongFlag(name, value));
    if first_where(0, fl.len() as int, named(fl, name)) < fl.len() {
        assert(named(fl, name)(first_where(0, fl.len() as int, named(fl, name))));
    }
}

/// A short flag `-c` of a value-taking flag (the first declared with that
/// short form; not repeatable, any value allowed) takes the next word as
/// its value; a short flag that no flag declares is an unknown-flag error.
pub proof fn lemma_short_flags(fl: Seq<Flag>, st: ParseState, c: char, v: Seq<char>, rest: Seq<TokenView>)
    ensures
        (forall|k: int| 0 <= k < fl.len() ==> (#[trigger] fl[k]).short != Some(c)) ==> step(
            fl,
            st,
            seq![TokenView::ShortFlag(c, None)] + rest,
        ) == Step::Stop(ParseErrorView::UnknownFlag(seq!['-', c])),
        forall|i: int|
            0 <= i < fl.len() && (#[trigger] fl[i]).short == Some(c) && (forall|k: int|
                0 <= k < i ==> (#[trigger] fl[k]).short != Some(c)) && fl[i].takes_value
                && !fl[i].repeatable && fl[i].choices is None ==> step(
                fl,
                st,
                seq![TokenView::ShortFlag(c, None), TokenView::Word(v)] + rest,
            ) == Step::Next(
                ParseState { positionals: st.positionals, flags: st.flags.insert(fl[i].name@, v) },
                rest,
            ),
{
    lemma_first_where_spec(0, fl.len() as int, with_short(fl, c));
    let q1 = seq![TokenView::ShortFlag(c, None)] + rest;
    assert(q1[0] == TokenView::ShortFlag(c, None));
    if first_where(0, fl.len() as int, with_short(fl, c)) < fl.len() {
        assert(with_short(fl, c)(first_where(0, fl.len() as int, with_short(fl, c))));
    }
    let q2 = seq![TokenView::ShortFlag(c, None), TokenView::Word(v)] + rest;
    assert(q2[0] == TokenView::ShortFlag(c, None));
    assert(q2.drop_first()[0] == TokenView::Word(v));
    assert(q2.drop_first().drop_first() =~= rest);
    assert forall|i: int|
        0 <= i < fl.len() && (#[trigger] fl[i]).short == Some(c) && (forall|k: int|
            0 <= k < i ==> (#[trigger] fl[k]).short != Some(c)) && fl[i].takes_value
            && !fl[i].repeatable && fl[i].choices is None implies step(
            fl,
            st,
            q2,
        ) == Step::Next(
            ParseState { positionals: st.positionals, flags: st.flags.insert(fl[i].name@, v) },
            rest,
        ) by {
        lemma_first_where_at(0, fl.len() as int, with_short(fl, c), i);
    }
}

/// Positional values bind to the arguments in declaration order: with no
/// variadic argument, distinct argument names and at least as many values
/// as arguments, the argument at `k` gets the value at `k`, and what was
/// bound before under other names is kept.
pub proof fn lemma_bind_in_order(
    args: Seq<Argument>,
    pos: Seq<Seq<char>>,
    i: int,
    acc: Map<Seq<char>, Seq<char>>,
)
    requires
        0 <= i <= args.len(),
        args.len() <= pos.len(),
        forall|k: int| 0 <= k < args.len() ==> !(#[trigger] args[k]).variadic,
        forall|a: int, b: int| 0 <= a < b < args.len() ==> (#[trigger] args[a]).name@ != (#[trigger] args[b]).name@,
    ensures
        bind_from(args, pos, i, acc) matches Bound::Args(m) && (forall|k: int|
            i <= k < args.len() ==> m.contains_key((#[trigger] args[k]).name@) && m[args[k].name@] == pos[k])
            && (forall|key: Seq<char>|
            #[trigger] acc.contains_key(key) && (forall|k: int| i <= k < args.len() ==> (#[trigger] args[k]).name@ != key)
                ==> m.contains_key(key) && m[key] == acc[key]),
    decreases args.len() - i,
{
    if i < args.len() {
        let acc2 = acc.insert(args[i].name@, pos[i]);
        lemma_bind_in_order(args, pos, i + 1, acc2);
        assert(!args[i].variadic);
        let m = bind_from(args, pos, i + 1, acc2)->Args_0;
        assert(bind_from(args, pos, i, acc) == bind_from(args, pos, i + 1, acc2));
        assert forall|k: int| i + 1 <= k < args.len() implies (#[trigger] args[k]).name@ != args[i].name@ by {
            assert(args[i].name@ != args[k].name@);
        }
        assert(acc2.contains_key(args[i].name@));
        assert(m.contains_key(args[i].name@) && m[args[i].name@] == pos[i]);
        assert forall|key: Seq<char>|
            #[trigger] acc.contains_key(key) && (forall|k: int| i <= k < args.len() ==> (#[trigger] args[k]).name@ != key)
                implies m.contains_key(key) && m[key] == acc[key] by {
            assert(args[i].name@ != key);
            assert(acc2.contains_key(key) && acc2[key] == acc[key]);
            assert(forall|k: int| i + 1 <= k < args.len() ==> (#[trigger] args[k]).name@ != key);
        }
    }
}

/// After a `--` argument, every argument, whatever it starts with, is a
/// positional value: tokenizing `--` followed by `ws` and consuming the
/// tokens appends `ws`, in order, to the positional values and sets no
/// flag.
pub proof fn lemma_rest_after_separator(fl: Seq<Flag>, st: ParseState, ws: Seq<Seq<char>>)
    ensures
        run_tokens(fl, st, tokenize_spec(seq![seq!['-', '-']] + ws)) == Ok::<ParseState, ParseErrorView>(
            ParseState { positionals: st.positionals + ws, flags: st.flags },
        ),
{
    let argv = seq![seq!['-', '-']] + ws;
    let words = ws.map_values(|w: Seq<char>| TokenView::Word(w));
    let toks = tokenize_spec(argv);
    crate::tokenizer::lemma_words_after_separator(argv, 0);
    assert(argv[0] == seq!['-', '-']);
    assert(toks[0] == TokenView::Separator);
    assert forall|k: int| 0 <= k < ws.len() implies toks[k + 1] == #[trigger] words[k] by {
        crate::tokenizer::lemma_words_after_separator(argv, k + 1);
        assert(argv[k + 1] == ws[k]);
    }
    assert(toks =~= seq![TokenView::Separator] + words);
    lemma_separator_skipped(fl, st, words);
    lemma_words_are_positionals(fl, st, ws);
}

} // verus!
