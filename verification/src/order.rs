//! The order of commands: by canonical name, then summary, then aliases,
//! each string compared by code point.
use std::cmp::Ordering;
use vstd::prelude::*;
use crate::model::Command;
use crate::text::{seq_lt, str_eq, str_lt, views};

verus! {

/// Three-way comparison of two strings by code point.
pub open spec fn text_order(a: Seq<char>, b: Seq<char>) -> Ordering {
    if a == b {
        Ordering::Equal
    } else if seq_lt(a, b) {
        Ordering::Less
    } else {
        Ordering::Greater
    }
}

/// Lexicographic three-way comparison of two lists of strings.
pub open spec fn list_order(a: Seq<Seq<char>>, b: Seq<Seq<char>>) -> Ordering
    decreases a.len(),
{
    if a.len() == 0 {
        if b.len() == 0 {
            Ordering::Equal
        } else {
            Ordering::Less
        }
    } else if b.len() == 0 {
        Ordering::Greater
    } else {
        match text_order(a[0], b[0]) {
            Ordering::Equal => list_order(a.drop_first(), b.drop_first()),
            o => o,
        }
    }
}

/// The order of two commands: canonical names first, then summaries, then
/// alias lists.
pub open spec fn command_order(a: Command, b: Command) -> Ordering {
    match text_order(a.canonical@, b.canonical@) {
        Ordering::Equal => match text_order(a.summary@, b.summary@) {
            Ordering::Equal => list_order(views(a.aliases@), views(b.aliases@)),
            o => o,
        },
        o => o,
    }
}

/// Three-way comparison of two strings by code point.
fn text_cmp(a: &str, b: &str) -> (r: Ordering)
    ensures
        r == text_order(a@, b@),
{
    if str_eq(a, b) {
        Ordering::Equal
    } else if str_lt(a, b) {
        Ordering::Less
    } else {
        Ordering::Greater
    }
}

/// The strings of `v` from position `i` on.
pub open spec fn rest(v: Seq<Seq<char>>, i: usize) -> Seq<Seq<char>> {
    v.skip(i as int)
}

/// Stepping past position `i` of both lists.
proof fn lemma_rest_step(a: Seq<String>, b: Seq<String>, i: usize)
    requires
        i < a.len() && i < b.len(),
        i + 1 <= usize::MAX,
    ensures
        rest(views(a), i)[0] == a[i as int]@,
        rest(views(b), i)[0] == b[i as int]@,
        rest(views(a), i).drop_first() == rest(views(a), (i + 1) as usize),
        rest(views(b), i).drop_first() == rest(views(b), (i + 1) as usize),
        rest(views(a), i).len() > 0 && rest(views(b), i).len() > 0,
{
    assert(rest(views(a), i).drop_first() =~= rest(views(a), (i + 1) as usize));
    assert(rest(views(b), i).drop_first() =~= rest(views(b), (i + 1) as usize));
}

/// The whole lists are their rest from 0, and a list rests empty at its end.
proof fn lemma_rest_ends(a: Seq<String>, i: usize)
    requires
        i <= a.len(),
    ensures
        rest(views(a), 0) == views(a),
        rest(views(a), i).len() == 0 <==> i == a.len(),
{
    assert(rest(views(a), 0) =~= views(a));
}

/// Lexicographic three-way comparison of two lists of strings.
fn list_cmp(a: &Vec<String>, b: &Vec<String>) -> (r: Ordering)
    ensures
        r == list_order(views(a@), views(b@)),
{
    proof {
        lemma_rest_ends(a@, 0);
        lemma_rest_ends(b@, 0);
    }
    let mut i: usize = 0;
    while i < a.len() && i < b.len()
        invariant
            i <= a@.len() && i <= b@.len(),
            list_order(views(a@), views(b@)) == list_order(rest(views(a@), i), rest(views(b@), i)),
        decreases a.len() - i,
    {
        proof {
            lemma_rest_step(a@, b@, i);
        }
        match text_cmp(a[i].as_str(), b[i].as_str()) {
            Ordering::Equal => {},
            Ordering::Less => {
                return Ordering::Less;
            },
            Ordering::Greater => {
                return Ordering::Greater;
            },
        }
        i = i + 1;
    }
    proof {
        lemma_rest_ends(a@, i);
        lemma_rest_ends(b@, i);
    }
    if i < a.len() {
        Ordering::Greater
    } else if i < b.len() {
        Ordering::Less
    } else {
        Ordering::Equal
    }
}

/// Comparing two strings the other way round reverses the answer.
pub proof fn lemma_text_order_reverses(a: Seq<char>, b: Seq<char>)
    ensures
        (text_order(a, b) == Ordering::Less) == (text_order(b, a) == Ordering::Greater),
        (text_order(a, b) == Ordering::Equal) == (text_order(b, a) == Ordering::Equal),
{
    crate::text::lemma_seq_lt_strict(a, b);
    crate::text::lemma_seq_lt_strict(b, a);
}

/// Comparing two lists of strings the other way round reverses the answer.
pub proof fn lemma_list_order_reverses(a: Seq<Seq<char>>, b: Seq<Seq<char>>)
    ensures
        (list_order(a, b) == Ordering::Less) == (list_order(b, a) == Ordering::Greater),
        (list_order(a, b) == Ordering::Equal) == (list_order(b, a) == Ordering::Equal),
    decreases a.len(),
{
    if a.len() > 0 && b.len() > 0 {
        lemma_text_order_reverses(a[0], b[0]);
        lemma_list_order_reverses(a.drop_first(), b.drop_first());
    }
}

/// Comparing two commands the other way round reverses the answer: `a`
/// sorts before `b` exactly when `b` sorts after `a`, and they tie exactly
/// when they tie the other way round.
pub proof fn lemma_command_order_reverses(a: Command, b: Command)
    ensures
        (command_order(a, b) == Ordering::Less) == (command_order(b, a) == Ordering::Greater),
        (command_order(a, b) == Ordering::Equal) == (command_order(b, a) == Ordering::Equal),
{
    lemma_text_order_reverses(a.canonical@, b.canonical@);
    lemma_text_order_reverses(a.summary@, b.summary@);
    lemma_list_order_reverses(views(a.aliases@), views(b.aliases@));
}

impl Command {
    /// Order commands by canonical name, then summary, then aliases.
    pub fn cmp(&self, other: &Command) -> (r: Ordering)
        ensures
            r == command_order(*self, *other),
    {
        match text_cmp(self.canonical.as_str(), other.canonical.as_str()) {
            Ordering::Equal => match text_cmp(self.summary.as_str(), other.summary.as_str()) {
                Ordering::Equal => list_cmp(&self.aliases, &other.aliases),
                o => o,
            },
            o => o,
        }
    }
}

} // verus!
