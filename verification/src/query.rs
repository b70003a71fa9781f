//! The command registry: lookup by canonical name or subcommand path,
//! substring search, fuzzy search, intent matching, and a depth-first walk
//! of the whole tree.
use vstd::prelude::*;
use fuzzy_matcher::FuzzyMatcher;
use crate::model::{first_where, lemma_first_where_at, lemma_first_where_none, Command, Example};
use crate::resolver::indices_where;
use crate::text::{
    join_strings, split_whitespace, split_ws, append_to, chars_of, contains_chars, contains_seq, is_ws, is_ws_exec, join, lowercase,
    push_char, string_of_range, to_lowercase, views,
};

verus! {

broadcast use vstd::string::group_string_axioms;

// ── Ordering by score ───────────────────────────────────────────────────────

/// Insert `e` (an index and a score) after every entry whose score is at
/// least `e`'s.
pub open spec fn insert_by_score(s: Seq<(int, int)>, e: (int, int)) -> Seq<(int, int)> {
    s.insert(first_where(0, s.len() as int, score_below(s, e.1)), e)
}

pub open spec fn score_below(s: Seq<(int, int)>, score: int) -> spec_fn(int) -> bool {
    |i: int| s[i].1 < score
}

/// `s` ordered by descending score; entries with equal scores keep their
/// order (a stable sort).
pub open spec fn sort_by_score(s: Seq<(int, int)>) -> Seq<(int, int)>
    decreases s.len(),
{
    if s.len() == 0 {
        seq![]
    } else {
        insert_by_score(sort_by_score(s.drop_last()), s.last())
    }
}

/// Entries whose scores never increase.
pub open spec fn scores_descending(s: Seq<(int, int)>) -> bool {
    forall|i: int, j: int| 0 <= i < j < s.len() ==> s[i].1 >= s[j].1
}

/// As integers.
pub open spec fn as_int_pairs(v: Seq<(usize, i64)>) -> Seq<(int, int)> {
    v.map_values(|p: (usize, i64)| (p.0 as int, p.1 as int))
}

/// Sort `(index, score)` entries by descending score, stably.
fn sort_entries(v: &Vec<(usize, i64)>) -> (r: Vec<(usize, i64)>)
    ensures
        as_int_pairs(r@) == sort_by_score(as_int_pairs(v@)),
{
    let mut out: Vec<(usize, i64)> = Vec::new();
    let mut k: usize = 0;
    while k < v.len()
        invariant
            k <= v@.len(),
            as_int_pairs(out@) == sort_by_score(as_int_pairs(v@).take(k as int)),
        decreases v.len() - k,
    {
        let e = v[k];
        let ghost s = as_int_pairs(out@);
        let mut p: usize = 0;
        while p < out.len() && out[p].1 >= e.1
            invariant
                p <= out@.len(),
                s == as_int_pairs(out@),
                forall|m: int| 0 <= m < p ==> !(#[trigger] score_below(s, e.1 as int)(m)),
            decreases out.len() - p,
        {
            p = p + 1;
        }
        proof {
            if p < out@.len() {
                lemma_first_where_at(0, s.len() as int, score_below(s, e.1 as int), p as int);
            } else {
                lemma_first_where_none(0, s.len() as int, score_below(s, e.1 as int));
            }
        }
        out.insert(p, e);
        proof {
            let t = as_int_pairs(v@).take(k + 1);
            assert(t.drop_last() == as_int_pairs(v@).take(k as int));
            assert(t.last() == (e.0 as int, e.1 as int));
            assert(as_int_pairs(out@) =~= s.insert(p as int, (e.0 as int, e.1 as int)));
        }
        k = k + 1;
    }
    proof {
        assert(as_int_pairs(v@).take(v@.len() as int) =~= as_int_pairs(v@));
    }
    out
}

/// The stable sort orders entries by descending score.
pub proof fn lemma_sort_by_score_descending(s: Seq<(int, int)>)
    ensures
        scores_descending(sort_by_score(s)),
        sort_by_score(s).len() == s.len(),
    decreases s.len(),
{
    if s.len() > 0 {
        let t = sort_by_score(s.drop_last());
        lemma_sort_by_score_descending(s.drop_last());
        let e = s.last();
        let p = first_where(0, t.len() as int, score_below(t, e.1));
        crate::model::lemma_first_where_spec(0, t.len() as int, score_below(t, e.1));
        let r = t.insert(p, e);
        assert forall|i: int, j: int| 0 <= i < j < r.len() implies r[i].1 >= r[j].1 by {
            if j < p {
            } else if j == p {
                assert(!score_below(t, e.1)(i));
            } else if i < p {
                assert(r[j] == t[j - 1]);
            } else if i == p {
                assert(r[j] == t[j - 1]);
                if p < t.len() {
                    assert(score_below(t, e.1)(p));
                    assert(t[p].1 >= t[j - 1].1);
                }
            } else {
                assert(r[i] == t[i - 1]);
                assert(r[j] == t[j - 1]);
            }
        }
    }
}

// ── Registry ────────────────────────────────────────────────────────────────

/// A command together with the canonical names leading to it from the top.
#[derive(Debug)]
pub struct CommandEntry<'a> {
    /// Canonical names from the top-level command down to this one.
    pub path: Vec<String>,
    /// The command.
    pub command: &'a Command,
}

impl<'a> CommandEntry<'a> {
    /// The last element of the path (the command's canonical name), or the
    /// empty string for an empty path.
    pub fn name(&self) -> (r: &str)
        ensures
            r@ == (if self.path@.len() == 0 {
                Seq::<char>::empty()
            } else {
                self.path@.last()@
            }),
    {
        let n = self.path.len();
        if n == 0 {
            proof {
                reveal_strlit("");
            }
            ""
        } else {
            self.path[n - 1].as_str()
        }
    }

    /// The path joined with `.`, e.g. `remote.add`.
    pub fn path_str(&self) -> (r: String)
        ensures
            r@ == join(views(self.path@), seq!['.']),
    {
        let mut sep = String::new();
        push_char(&mut sep, '.');
        proof {
            assert(sep@ =~= seq!['.']);
        }
        join_strings(&self.path, &sep)
    }
}

/// The commands an application registers, with lookup and search.
pub struct Registry {
    /// The top-level commands, in registration order.
    pub commands: Vec<Command>,
}

/// The text a command is searched by: its canonical name, summary and
/// description, each lowercased.
pub open spec fn search_hit(c: Command, q: Seq<char>) -> bool {
    contains_seq(lowercase(c.canonical@), q) || contains_seq(lowercase(c.summary@), q)
        || contains_seq(lowercase(c.description@), q)
}

pub open spec fn named_at(cmds: Seq<Command>, name: Seq<char>) -> spec_fn(int) -> bool {
    |i: int| cmds[i].canonical@ == name
}

/// The command reached from `cmds` by following the canonical names `path`.
pub open spec fn follow_path(cmds: Seq<Command>, path: Seq<Seq<char>>) -> Option<Command>
    decreases path.len(),
{
    if path.len() == 0 {
        None
    } else {
        let i = first_where(0, cmds.len() as int, named_at(cmds, path[0]));
        if i >= cmds.len() {
            None
        } else if path.len() == 1 {
            Some(cmds[i])
        } else {
            follow_path(cmds[i].subcommands@, path.drop_first())
        }
    }
}

/// Position of the first command named `name`, or the number of commands.
fn find_canonical(cmds: &Vec<Command>, name: &String) -> (r: usize)
    ensures
        r == first_where(0, cmds@.len() as int, named_at(cmds@, name@)),
{
    let mut i: usize = 0;
    while i < cmds.len()
        invariant
            i <= cmds@.len(),
            forall|k: int| 0 <= k < i ==> !(#[trigger] named_at(cmds@, name@)(k)),
        decreases cmds.len() - i,
    {
        if cmds[i].canonical == *name {
            proof {
                lemma_first_where_at(0, cmds@.len() as int, named_at(cmds@, name@), i as int);
            }
            return i;
        }
        i = i + 1;
    }
    proof {
        lemma_first_where_none(0, cmds@.len() as int, named_at(cmds@, name@));
    }
    i
}

impl Registry {
    /// A registry over `commands`.
    pub fn new(commands: Vec<Command>) -> (r: Self)
        ensures
            r.commands@ == commands@,
    {
        Registry { commands }
    }

    /// Append a command.
    pub(crate) fn push(&mut self, cmd: Command)
        ensures
            final(self).commands@ == old(self).commands@.push(cmd),
    {
        self.commands.push(cmd);
    }

    /// The top-level commands.
    pub fn commands(&self) -> (r: &[Command])
        ensures
            r@ == self.commands@,
    {
        self.commands.as_slice()
    }

    /// References to the top-level commands, in order.
    pub fn list_commands(&self) -> (r: Vec<&Command>)
        ensures
            r@.len() == self.commands@.len(),
            forall|i: int| 0 <= i < r@.len() ==> *r@[i] == self.commands@[i],
    {
        let mut out: Vec<&Command> = Vec::new();
        let mut i: usize = 0;
        while i < self.commands.len()
            invariant
                i <= self.commands@.len(),
                out@.len() == i,
                forall|k: int| 0 <= k < i ==> *out@[k] == self.commands@[k],
            decreases self.commands.len() - i,
        {
            out.push(&self.commands[i]);
            i = i + 1;
        }
        out
    }

    /// The first top-level command whose canonical name is `canonical`
    /// (case-sensitive).
    pub fn get_command(&self, canonical: &str) -> (r: Option<&Command>)
        ensures
            ({
                let i = first_where(0, self.commands@.len() as int, named_at(self.commands@, canonical@));
                match r {
                    Some(c) => i < self.commands@.len() && *c == self.commands@[i],
                    None => i >= self.commands@.len(),
                }
            }),
    {
        let name = String::from_str(canonical);
        let i = find_canonical(&self.commands, &name);
        if i < self.commands.len() {
            Some(&self.commands[i])
        } else {
            None
        }
    }

    /// The command reached by following canonical names from the top level,
    /// e.g. `["remote", "add"]`; `None` for an empty path or a missing name.
    pub fn get_subcommand(&self, path: &[&str]) -> (r: Option<&Command>)
        ensures
            match follow_path(self.commands@, crate::tokenizer::arg_views(path@)) {
                Some(c) => r matches Some(x) && *x == c,
                None => r is None,
            },
    {
        let ghost pv = crate::tokenizer::arg_views(path@);
        if path.len() == 0 {
            return None;
        }
        let mut cur_list: &Vec<Command> = &self.commands;
        let mut k: usize = 0;
        proof {
            assert(pv.subrange(0, pv.len() as int) =~= pv);
        }
        loop
            invariant
                k < path@.len(),
                pv == crate::tokenizer::arg_views(path@),
                follow_path(self.commands@, pv) == follow_path(cur_list@, pv.subrange(k as int, pv.len() as int)),
            decreases path@.len() - k,
        {
            let ghost rest = pv.subrange(k as int, pv.len() as int);
            let name = String::from_str(path[k]);
            let i = find_canonical(cur_list, &name);
            proof {
                assert(rest[0] == name@);
                assert(rest.drop_first() =~= pv.subrange(k + 1, pv.len() as int));
            }
            if i >= cur_list.len() {
                return None;
            }
            if k + 1 == path.len() {
                return Some(&cur_list[i]);
            }
            cur_list = &cur_list[i].subcommands;
            k = k + 1;
        }
    }

    /// The examples of the top-level command named `canonical`.
    pub fn get_examples(&self, canonical: &str) -> (r: Option<&[Example]>)
        ensures
            ({
                let i = first_where(0, self.commands@.len() as int, named_at(self.commands@, canonical@));
                match r {
                    Some(e) => i < self.commands@.len() && e@ == self.commands@[i].examples@,
                    None => i >= self.commands@.len(),
                }
            }),
    {
        match self.get_command(canonical) {
            Some(c) => Some(c.examples.as_slice()),
            None => None,
        }
    }

    /// Top-level commands whose canonical name, summary or description
    /// contains `query`, ignoring case, in registration order.
    pub fn search(&self, query: &str) -> (r: Vec<&Command>)
        ensures
            ({
                let q = lowercase(query@);
                let hits = indices_where(self.commands@.len() as int, |i: int| search_hit(self.commands@[i], q));
                r@.len() == hits.len() && forall|k: int| 0 <= k < hits.len() ==> *r@[k] == self.commands@[hits[k]]
            }),
    {
        let q = to_lowercase(query);
        let qv = chars_of(q.as_str());
        let ghost p = |i: int| search_hit(self.commands@[i], q@);
        let mut out: Vec<&Command> = Vec::new();
        let mut i: usize = 0;
        while i < self.commands.len()
            invariant
                i <= self.commands@.len(),
                qv@ == q@,
                q@ == lowercase(query@),
                p == (|i: int| search_hit(self.commands@[i], q@)),
                out@.len() == indices_where(i as int, p).len(),
                forall|k: int| 0 <= k < out@.len() ==> *out@[k] == self.commands@[indices_where(i as int, p)[k]],
            decreases self.commands.len() - i,
        {
            let c = &self.commands[i];
            let a = chars_of(to_lowercase(c.canonical.as_str()).as_str());
            let b = chars_of(to_lowercase(c.summary.as_str()).as_str());
            let d = chars_of(to_lowercase(c.description.as_str()).as_str());
            let hit = contains_chars(&a, &qv) || contains_chars(&b, &qv) || contains_chars(&d, &qv);
            if hit {
                out.push(c);
            }
            proof {
                assert(p(i as int) == hit);
                if hit {
                    assert(indices_where(i + 1, p) == indices_where(i as int, p).push(i as int));
                } else {
                    assert(indices_where(i + 1, p) == indices_where(i as int, p));
                }
            }
            i = i + 1;
        }
        out
    }
}

// ── Intent matching and fuzzy search ────────────────────────────────────────

/// Lowercased strings joined by single spaces.
pub open spec fn lower_joined(v: Seq<String>) -> Seq<char> {
    join(v.map_values(|s: String| lowercase(s@)), seq![' '])
}

/// The text intent phrases are matched against: canonical name, aliases,
/// semantic aliases, summary and description, lowercased and separated by
/// spaces.
pub open spec fn intent_text(c: Command) -> Seq<char> {
    lowercase(c.canonical@) + seq![' '] + lower_joined(c.aliases@) + seq![' '] + lower_joined(
        c.semantic_aliases@,
    ) + seq![' '] + lowercase(c.summary@) + seq![' '] + lowercase(c.description@)
}

/// How many of `words` (counting repeats) occur in `text`.
pub open spec fn words_found(words: Seq<Seq<char>>, text: Seq<char>) -> int
    decreases words.len(),
{
    if words.len() == 0 {
        0
    } else {
        words_found(words.drop_last(), text) + if contains_seq(text, words.last()) {
            1int
        } else {
            0int
        }
    }
}

/// The intent score of the command at `i`: the number of words of the
/// lowercased phrase found in its intent text, as a `u32`.
pub open spec fn intent_score(cmds: Seq<Command>, phrase: Seq<char>, i: int) -> int {
    (words_found(split_ws(lowercase(phrase)), intent_text(cmds[i])) as u32) as int
}

pub open spec fn scored_positive(cmds: Seq<Command>, phrase: Seq<char>) -> spec_fn(int) -> bool {
    |i: int| intent_score(cmds, phrase, i) > 0
}

/// The commands with a positive intent score, best first (ties keep
/// registration order), as `(index, score)`.
pub open spec fn intent_ranking(cmds: Seq<Command>, phrase: Seq<char>) -> Seq<(int, int)> {
    sort_by_score(
        indices_where(cmds.len() as int, scored_positive(cmds, phrase)).map_values(
            |i: int| (i, intent_score(cmds, phrase, i)),
        ),
    )
}

/// The score `SkimMatcherV2` (default settings) gives `text` for `pattern`,
/// or `None` when the pattern does not match.
pub uninterp spec fn skim_score(text: Seq<char>, pattern: Seq<char>) -> Option<i64>;

/// `fuzzy_matcher::skim::SkimMatcherV2::default().fuzzy_match(text,
/// pattern)`: its result is named `skim_score`; an empty pattern matches
/// with score 0, as the crate's source returns early.
#[verifier::external_body]
fn skim_match(text: &str, pattern: &str) -> (r: Option<i64>)
    ensures
        r == skim_score(text@, pattern@),
        pattern@.len() == 0 ==> r == Some(0i64),
{
    fuzzy_matcher::skim::SkimMatcherV2::default().fuzzy_match(text, pattern)
}

/// The text fuzzy search scores: canonical name, summary and description
/// separated by spaces.
pub open spec fn fuzzy_text(c: Command) -> Seq<char> {
    c.canonical@ + seq![' '] + c.summary@ + seq![' '] + c.description@
}

pub open spec fn fuzzy_hit(cmds: Seq<Command>, query: Seq<char>) -> spec_fn(int) -> bool {
    |i: int| skim_score(fuzzy_text(cmds[i]), query) is Some
}

/// The commands the fuzzy matcher accepts, best first (ties keep
/// registration order), as `(index, score)`.
pub open spec fn fuzzy_ranking(cmds: Seq<Command>, query: Seq<char>) -> Seq<(int, int)> {
    sort_by_score(
        indices_where(cmds.len() as int, fuzzy_hit(cmds, query)).map_values(
            |i: int| (i, skim_score(fuzzy_text(cmds[i]), query).unwrap() as int),
        ),
    )
}

/// `v` lowercased, joined by spaces.
fn lower_join_exec(v: &Vec<String>) -> (r: String)
    ensures
        r@ == lower_joined(v@),
{
    let mut lows: Vec<String> = Vec::new();
    let mut i: usize = 0;
    while i < v.len()
        invariant
            i <= v@.len(),
            views(lows@) == v@.map_values(|s: String| lowercase(s@)).take(i as int),
        decreases v.len() - i,
    {
        let ghost prev = lows@;
        let l = to_lowercase(v[i].as_str());
        lows.push(l);
        proof {
            assert(views(lows@) =~= views(prev).push(l@));
            assert(views(lows@) =~= v@.map_values(|s: String| lowercase(s@)).take(i + 1));
        }
        i = i + 1;
    }
    let mut sep = String::new();
    push_char(&mut sep, ' ');
    proof {
        assert(sep@ =~= seq![' ']);
        assert(v@.map_values(|s: String| lowercase(s@)).take(v@.len() as int) =~= v@.map_values(
            |s: String| lowercase(s@),
        ));
    }
    join_strings(&lows, &sep)
}

/// A string of one space.
fn space() -> (r: String)
    ensures
        r@ == seq![' '],
{
    let mut s = String::new();
    push_char(&mut s, ' ');
    proof {
        assert(s@ =~= seq![' ']);
    }
    s
}

/// The intent text of `c`.
fn intent_text_exec(c: &Command) -> (r: String)
    ensures
        r@ == intent_text(*c),
{
    let sp = space();
    let mut t = to_lowercase(c.canonical.as_str());
    append_to(&mut t, &sp);
    append_to(&mut t, &lower_join_exec(&c.aliases));
    append_to(&mut t, &sp);
    append_to(&mut t, &lower_join_exec(&c.semantic_aliases));
    append_to(&mut t, &sp);
    append_to(&mut t, &to_lowercase(c.summary.as_str()));
    append_to(&mut t, &sp);
    append_to(&mut t, &to_lowercase(c.description.as_str()));
    t
}

/// The fuzzy-search text of `c`.
fn fuzzy_text_exec(c: &Command) -> (r: String)
    ensures
        r@ == fuzzy_text(*c),
{
    let sp = space();
    let mut t = c.canonical.clone();
    append_to(&mut t, &sp);
    append_to(&mut t, &c.summary);
    append_to(&mut t, &sp);
    append_to(&mut t, &c.description);
    t
}

/// How many of `words` occur in `text`.
fn count_found(words: &Vec<String>, text: &Vec<char>) -> (r: u64)
    ensures
        r == words_found(views(words@), text@),
{
    let mut n: u64 = 0;
    let mut i: usize = 0;
    while i < words.len()
        invariant
            i <= words@.len(),
            n == words_found(views(words@).take(i as int), text@),
            n <= i,
        decreases words.len() - i,
    {
        let w = chars_of(words[i].as_str());
        proof {
            assert(views(words@).take(i + 1).drop_last() =~= views(words@).take(i as int));
            assert(views(words@).take(i + 1).last() == words@[i as int]@);
        }
        if contains_chars(text, &w) {
            n = n + 1;
        }
        i = i + 1;
    }
    proof {
        assert(views(words@).take(words@.len() as int) =~= views(words@));
    }
    n
}

/// Commands and scores in the order of `ranked` (indices into `cmds`).
fn pick_ranked<'b>(cmds: &'b Vec<Command>, ranked: &Vec<(usize, i64)>) -> (r: Vec<(&'b Command, i64)>)
    requires
        forall|k: int| 0 <= k < ranked@.len() ==> (#[trigger] ranked@[k]).0 < cmds@.len(),
    ensures
        r@.len() == ranked@.len(),
        forall|k: int|
            0 <= k < r@.len() ==> *(#[trigger] r@[k]).0 == cmds@[ranked@[k].0 as int] && r@[k].1
                == ranked@[k].1,
{
    let mut out: Vec<(&'b Command, i64)> = Vec::new();
    let mut k: usize = 0;
    while k < ranked.len()
        invariant
            k <= ranked@.len(),
            forall|m: int| 0 <= m < ranked@.len() ==> (#[trigger] ranked@[m]).0 < cmds@.len(),
            out@.len() == k,
            forall|m: int|
                0 <= m < k ==> *(#[trigger] out@[m]).0 == cmds@[ranked@[m].0 as int] && out@[m].1
                    == ranked@[m].1,
        decreases ranked.len() - k,
    {
        let (i, score) = ranked[k];
        out.push((&cmds[i], score));
        k = k + 1;
    }
    out
}

/// Sorting keeps indices below `n` and scores within `[0, m]`.
proof fn lemma_sort_keeps_members(s: Seq<(int, int)>, n: int, m: int)
    requires
        forall|k: int| 0 <= k < s.len() ==> 0 <= (#[trigger] s[k]).0 < n && 0 <= s[k].1 <= m,
    ensures
        forall|k: int|
            0 <= k < sort_by_score(s).len() ==> 0 <= (#[trigger] sort_by_score(s)[k]).0 < n && 0
                <= sort_by_score(s)[k].1 <= m,
    decreases s.len(),
{
    if s.len() > 0 {
        lemma_sort_keeps_members(s.drop_last(), n, m);
        let t = sort_by_score(s.drop_last());
        let p = first_where(0, t.len() as int, score_below(t, s.last().1));
        crate::model::lemma_first_where_spec(0, t.len() as int, score_below(t, s.last().1));
        assert forall|k: int| 0 <= k < t.insert(p, s.last()).len() implies 0 <= (#[trigger] t.insert(p, s.last())[k]).0 < n && 0 <= t.insert(p, s.last())[k].1 <= m by {
            if k < p {
            } else if k == p {
            } else {
                assert(t.insert(p, s.last())[k] == t[k - 1]);
            }
        }
    }
}

/// Sorting keeps every entry's first component below a bound that the
/// input's first components are below.
proof fn lemma_sort_firsts_below(s: Seq<(int, int)>, n: int)
    requires
        forall|k: int| 0 <= k < s.len() ==> (#[trigger] s[k]).0 < n,
    ensures
        forall|k: int| 0 <= k < sort_by_score(s).len() ==> (#[trigger] sort_by_score(s)[k]).0 < n,
        sort_by_score(s).len() == s.len(),
    decreases s.len(),
{
    if s.len() > 0 {
        lemma_sort_firsts_below(s.drop_last(), n);
        let t = sort_by_score(s.drop_last());
        let e = s.last();
        let p = first_where(0, t.len() as int, score_below(t, e.1));
        crate::model::lemma_first_where_spec(0, t.len() as int, score_below(t, e.1));
        let r = t.insert(p, e);
        assert(sort_by_score(s) == r);
        assert forall|k: int| 0 <= k < r.len() implies (#[trigger] r[k]).0 < n by {
            if k < p {
                assert(r[k] == t[k]);
            } else if k > p {
                assert(r[k] == t[k - 1]);
            }
        }
    }
}

/// The sort is stable: when the input's first components increase, entries
/// with equal scores come out in increasing first component.
pub proof fn lemma_sort_by_score_stable(s: Seq<(int, int)>)
    requires
        forall|a: int, b: int| 0 <= a < b < s.len() ==> (#[trigger] s[a]).0 < (#[trigger] s[b]).0,
    ensures
        forall|x: int, y: int|
            0 <= x < y < sort_by_score(s).len() && (#[trigger] sort_by_score(s)[x]).1 == (
            #[trigger] sort_by_score(s)[y]).1 ==> sort_by_score(s)[x].0 < sort_by_score(s)[y].0,
    decreases s.len(),
{
    if s.len() > 0 {
        let sd = s.drop_last();
        let e = s.last();
        assert forall|a: int, b: int| 0 <= a < b < sd.len() implies (#[trigger] sd[a]).0 < (
        #[trigger] sd[b]).0 by {
            assert(sd[a] == s[a] && sd[b] == s[b]);
        }
        lemma_sort_by_score_stable(sd);
        assert forall|k: int| 0 <= k < sd.len() implies (#[trigger] sd[k]).0 < e.0 by {
            assert(sd[k] == s[k]);
        }
        lemma_sort_firsts_below(sd, e.0);
        lemma_sort_by_score_descending(sd);
        let t = sort_by_score(sd);
        let p = first_where(0, t.len() as int, score_below(t, e.1));
        crate::model::lemma_first_where_spec(0, t.len() as int, score_below(t, e.1));
        let r = t.insert(p, e);
        assert(sort_by_score(s) == r);
        assert forall|x: int, y: int| 0 <= x < y < r.len() && (#[trigger] r[x]).1 == (#[trigger] r[y]).1 implies r[x].0
            < r[y].0 by {
            if x == p {
                assert(r[y] == t[y - 1]);
                assert(score_below(t, e.1)(p));
                assert(t[p].1 >= t[y - 1].1);
            } else if y == p {
                assert(r[x] == t[x]);
            } else {
                let tx = if x < p { x } else { x - 1 };
                let ty = if y < p { y } else { y - 1 };
                assert(r[x] == t[tx]);
                assert(r[y] == t[ty]);
            }
        }
    }
}

/// Intent matches with equal scores keep registration order.
pub proof fn lemma_intent_ties_keep_registration_order(cmds: Seq<Command>, phrase: Seq<char>)
    ensures
        forall|x: int, y: int|
            0 <= x < y < intent_ranking(cmds, phrase).len() && (#[trigger] intent_ranking(cmds, phrase)[x]).1
                == (#[trigger] intent_ranking(cmds, phrase)[y]).1 ==> intent_ranking(cmds, phrase)[x].0
                < intent_ranking(cmds, phrase)[y].0,
{
    let p = scored_positive(cmds, phrase);
    let idx = indices_where(cmds.len() as int, p);
    let s = idx.map_values(|i: int| (i, intent_score(cmds, phrase, i)));
    crate::resolver::lemma_indices_where_increasing(cmds.len() as int, p);
    assert forall|a: int, b: int| 0 <= a < b < s.len() implies (#[trigger] s[a]).0 < (#[trigger] s[b]).0 by {
        assert(s[a].0 == idx[a] && s[b].0 == idx[b]);
    }
    lemma_sort_by_score_stable(s);
}

/// Fuzzy matches with equal scores keep registration order.
pub proof fn lemma_fuzzy_ties_keep_registration_order(cmds: Seq<Command>, query: Seq<char>)
    ensures
        forall|x: int, y: int|
            0 <= x < y < fuzzy_ranking(cmds, query).len() && (#[trigger] fuzzy_ranking(cmds, query)[x]).1
                == (#[trigger] fuzzy_ranking(cmds, query)[y]).1 ==> fuzzy_ranking(cmds, query)[x].0
                < fuzzy_ranking(cmds, query)[y].0,
{
    let p = fuzzy_hit(cmds, query);
    let idx = indices_where(cmds.len() as int, p);
    let s = idx.map_values(|i: int| (i, skim_score(fuzzy_text(cmds[i]), query).unwrap() as int));
    crate::resolver::lemma_indices_where_increasing(cmds.len() as int, p);
    assert forall|a: int, b: int| 0 <= a < b < s.len() implies (#[trigger] s[a]).0 < (#[trigger] s[b]).0 by {
        assert(s[a].0 == idx[a] && s[b].0 == idx[b]);
    }
    lemma_sort_by_score_stable(s);
}

/// Intent matches come best first: the ranking's scores never increase,
/// and each entry names a registered command.
pub proof fn lemma_intent_ranking_descending(cmds: Seq<Command>, phrase: Seq<char>)
    ensures
        scores_descending(intent_ranking(cmds, phrase)),
        forall|k: int|
            0 <= k < intent_ranking(cmds, phrase).len() ==> 0 <= (#[trigger] intent_ranking(cmds, phrase)[k]).0
                < cmds.len(),
{
    let p = scored_positive(cmds, phrase);
    let s = indices_where(cmds.len() as int, p).map_values(|i: int| (i, intent_score(cmds, phrase, i)));
    lemma_sort_by_score_descending(s);
    crate::resolver::lemma_indices_where_bounds(cmds.len() as int, p);
    assert forall|k: int| 0 <= k < s.len() implies 0 <= (#[trigger] s[k]).0 < cmds.len() && 0 <= s[k].1
        <= u32::MAX by {
        assert(s[k] == (indices_where(cmds.len() as int, p)[k], intent_score(cmds, phrase, indices_where(cmds.len() as int, p)[k])));
    }
    lemma_sort_keeps_members(s, cmds.len() as int, u32::MAX as int);
}

/// `search` finds exactly the commands whose lowercased canonical name,
/// summary or description contains the lowercased query.
pub proof fn lemma_search_hits(cmds: Seq<Command>, query: Seq<char>, i: int)
    requires
        0 <= i < cmds.len(),
    ensures
        indices_where(cmds.len() as int, |n: int| search_hit(cmds[n], lowercase(query))).contains(i)
            <==> (contains_seq(lowercase(cmds[i].canonical@), lowercase(query)) || contains_seq(
            lowercase(cmds[i].summary@),
            lowercase(query),
        ) || contains_seq(lowercase(cmds[i].description@), lowercase(query))),
{
    crate::resolver::lemma_indices_where_members(
        cmds.len() as int,
        |n: int| search_hit(cmds[n], lowercase(query)),
    );
}

/// Sorting adds no entry.
proof fn lemma_sort_from(s: Seq<(int, int)>, e: (int, int))
    requires
        sort_by_score(s).contains(e),
    ensures
        s.contains(e),
    decreases s.len(),
{
    if s.len() > 0 {
        let t = sort_by_score(s.drop_last());
        let p = first_where(0, t.len() as int, score_below(t, s.last().1));
        crate::model::lemma_first_where_spec(0, t.len() as int, score_below(t, s.last().1));
        let r = t.insert(p, s.last());
        assert(sort_by_score(s) == r);
        let m = choose|m: int| 0 <= m < r.len() && r[m] == e;
        if m == p {
            assert(s[s.len() - 1] == e);
        } else {
            if m < p {
                assert(t[m] == e);
            } else {
                assert(t[m - 1] == e);
            }
            lemma_sort_from(s.drop_last(), e);
            let x = choose|x: int| 0 <= x < s.drop_last().len() && s.drop_last()[x] == e;
            assert(s[x] == e);
        }
    }
}

/// The fuzzy search keeps exactly the commands that the matcher accepts
/// on the text made of the canonical name, the summary and the
/// description separated by spaces, each with the score the matcher gives
/// that text.
pub proof fn lemma_fuzzy_members(cmds: Seq<Command>, query: Seq<char>, i: int)
    requires
        0 <= i < cmds.len(),
    ensures
        ({
            let text = cmds[i].canonical@ + seq![' '] + cmds[i].summary@ + seq![' '] + cmds[i].description@;
            let r = fuzzy_ranking(cmds, query);
            &&& (exists|k: int| 0 <= k < r.len() && (#[trigger] r[k]).0 == i) <==> skim_score(text, query) is Some
            &&& forall|k: int|
                0 <= k < r.len() && (#[trigger] r[k]).0 == i ==> r[k].1 == skim_score(text, query).unwrap() as int
        }),
{
    let text = cmds[i].canonical@ + seq![' '] + cmds[i].summary@ + seq![' '] + cmds[i].description@;
    assert(fuzzy_text(cmds[i]) == text);
    let p = fuzzy_hit(cmds, query);
    let idx = indices_where(cmds.len() as int, p);
    crate::resolver::lemma_indices_where_members(cmds.len() as int, p);
    let f = |n: int| (n, skim_score(fuzzy_text(cmds[n]), query).unwrap() as int);
    let s = idx.map_values(f);
    let r = fuzzy_ranking(cmds, query);
    assert(r == sort_by_score(s));
    if skim_score(text, query) is Some {
        assert(p(i));
        assert(idx.contains(i));
        let x = choose|x: int| 0 <= x < idx.len() && idx[x] == i;
        assert(s[x] == f(i));
        lemma_sort_contains(s, f(i));
        let k = choose|k: int| 0 <= k < r.len() && r[k] == f(i);
        assert(r[k].0 == i);
    }
    assert forall|k: int| 0 <= k < r.len() && (#[trigger] r[k]).0 == i implies skim_score(text, query) is Some
        && r[k].1 == skim_score(text, query).unwrap() as int by {
        assert(r.contains(r[k]));
        lemma_sort_from(s, r[k]);
        let x = choose|x: int| 0 <= x < s.len() && s[x] == r[k];
        assert(idx.contains(idx[x]));
    }
}

/// Following a path step by step: a path of two or more names reaches the
/// subcommand, named by its last name, of what the path without its last
/// name reaches; whatever a path reaches is named by its last name.
pub proof fn lemma_follow_path_steps(cmds: Seq<Command>, path: Seq<Seq<char>>)
    requires
        path.len() >= 1,
    ensures
        follow_path(cmds, path) matches Some(c) ==> c.canonical@ == path.last(),
        path.len() >= 2 ==> follow_path(cmds, path) == match follow_path(cmds, path.drop_last()) {
            Some(p) => follow_path(p.subcommands@, seq![path.last()]),
            None => None,
        },
    decreases path.len(),
{
    let i = first_where(0, cmds.len() as int, named_at(cmds, path[0]));
    crate::model::lemma_first_where_spec(0, cmds.len() as int, named_at(cmds, path[0]));
    if path.len() >= 2 && i < cmds.len() {
        let rest = path.drop_first();
        lemma_follow_path_steps(cmds[i].subcommands@, rest);
        assert(path.drop_last()[0] == path[0]);
        if path.len() > 2 {
            assert(path.drop_last().drop_first() =~= rest.drop_last());
        } else {
            assert(rest =~= seq![path.last()]);
        }
    }
    if path.len() >= 2 && i >= cmds.len() {
        assert(path.drop_last()[0] == path[0]);
    }
}

/// A single name reaches the first top-level command with that canonical
/// name, and nothing when no command has it.
pub proof fn lemma_follow_single(cmds: Seq<Command>, name: Seq<char>)
    ensures
        match follow_path(cmds, seq![name]) {
            Some(c) => exists|i: int|
                0 <= i < cmds.len() && cmds[i] == c && c.canonical@ == name && forall|k: int|
                    0 <= k < i ==> (#[trigger] cmds[k]).canonical@ != name,
            None => forall|k: int| 0 <= k < cmds.len() ==> (#[trigger] cmds[k]).canonical@ != name,
        },
{
    let i = first_where(0, cmds.len() as int, named_at(cmds, name));
    crate::model::lemma_first_where_spec(0, cmds.len() as int, named_at(cmds, name));
    assert(seq![name][0] == name);
    assert forall|k: int| 0 <= k < i implies (#[trigger] cmds[k]).canonical@ != name by {
        assert(!named_at(cmds, name)(k));
    }
}

/// In the depth-first walk every subcommand of an entry comes after it,
/// with the entry's path extended by the subcommand's name.
pub proof fn lemma_walk_subcommand(cmds: Seq<Command>, prefix: Seq<Seq<char>>, k: int, j: int)
    requires
        0 <= k < walk_all(cmds, prefix).len(),
        0 <= j < walk_all(cmds, prefix)[k].1.subcommands@.len(),
    ensures
        exists|m: int|
            k < m < walk_all(cmds, prefix).len() && #[trigger] walk_all(cmds, prefix)[m] == (
            walk_all(cmds, prefix)[k].0.push(walk_all(cmds, prefix)[k].1.subcommands@[j].canonical@),
            walk_all(cmds, prefix)[k].1.subcommands@[j],
        ),
    decreases cmds,
{
    let c = cmds[0];
    let p = prefix.push(c.canonical@);
    assert(decreases_to!(cmds => cmds[0]));
    assert(decreases_to!(cmds[0] => cmds[0].subcommands));
    assert(decreases_to!(cmds[0].subcommands => cmds[0].subcommands@));
    vstd::seq::axiom_seq_len_decreases(cmds, cmds.drop_first());
    let sub = walk_all(c.subcommands@, p);
    let rest = walk_all(cmds.drop_first(), prefix);
    let w = walk_all(cmds, prefix);
    assert(w == seq![(p, c)] + sub + rest);
    if k == 0 {
        assert(w[0] == (p, c));
        lemma_walk_paths(c.subcommands@, p);
        assert(c.subcommands@[j] == c.subcommands@[j]);
        let m = choose|m: int|
            0 <= m < sub.len() && #[trigger] sub[m] == (p.push(c.subcommands@[j].canonical@), c.subcommands@[j]);
        assert(w[1 + m] == sub[m]);
    } else if k < 1 + sub.len() {
        let kk = k - 1;
        assert(w[k] == sub[kk]);
        lemma_walk_subcommand(c.subcommands@, p, kk, j);
        let m = choose|m: int|
            kk < m < sub.len() && #[trigger] sub[m] == (sub[kk].0.push(sub[kk].1.subcommands@[j].canonical@),
            sub[kk].1.subcommands@[j]);
        assert(w[1 + m] == sub[m]);
    } else {
        let kk = k - 1 - sub.len();
        assert(w[k] == rest[kk]);
        lemma_walk_subcommand(cmds.drop_first(), prefix, kk, j);
        let m = choose|m: int|
            kk < m < rest.len() && #[trigger] rest[m] == (rest[kk].0.push(rest[kk].1.subcommands@[j].canonical@),
            rest[kk].1.subcommands@[j]);
        assert(w[1 + sub.len() + m] == rest[m]);
    }
}

/// The depth-first walk lists each command with the path of canonical
/// names leading to it: the path extends the walk's prefix and ends with
/// the command's own name; and every command of the list is there, right
/// below the prefix.
pub proof fn lemma_walk_paths(cmds: Seq<Command>, prefix: Seq<Seq<char>>)
    ensures
        forall|k: int|
            0 <= k < walk_all(cmds, prefix).len() ==> (#[trigger] walk_all(cmds, prefix)[k]).0.len()
                > prefix.len() && walk_all(cmds, prefix)[k].0.subrange(0, prefix.len() as int) == prefix
                && walk_all(cmds, prefix)[k].0.last() == walk_all(cmds, prefix)[k].1.canonical@,
        forall|i: int|
            #![trigger cmds[i]]
            0 <= i < cmds.len() ==> exists|k: int|
                0 <= k < walk_all(cmds, prefix).len() && #[trigger] walk_all(cmds, prefix)[k] == (
                prefix.push(cmds[i].canonical@),
                cmds[i],
            ),
    decreases cmds,
{
    if cmds.len() > 0 {
        let c = cmds[0];
        let p = prefix.push(c.canonical@);
        assert(decreases_to!(cmds => cmds[0]));
        assert(decreases_to!(cmds[0] => cmds[0].subcommands));
        assert(decreases_to!(cmds[0].subcommands => cmds[0].subcommands@));
        vstd::seq::axiom_seq_len_decreases(cmds, cmds.drop_first());
        lemma_walk_paths(c.subcommands@, p);
        lemma_walk_paths(cmds.drop_first(), prefix);
        let a = seq![(p, c)];
        let sub = walk_all(c.subcommands@, p);
        let rest = walk_all(cmds.drop_first(), prefix);
        let w = walk_all(cmds, prefix);
        assert(w == a + sub + rest);
        assert forall|k: int|
            0 <= k < w.len() implies (#[trigger] w[k]).0.len() > prefix.len() && w[k].0.subrange(
                0,
                prefix.len() as int,
            ) == prefix && w[k].0.last() == w[k].1.canonical@ by {
            if k == 0 {
                assert(p.subrange(0, prefix.len() as int) =~= prefix);
            } else if k < 1 + sub.len() {
                let e = sub[k - 1];
                assert(w[k] == e);
                assert(e.0.subrange(0, p.len() as int) == p);
                assert(e.0.subrange(0, prefix.len() as int) =~= p.subrange(0, prefix.len() as int));
                assert(p.subrange(0, prefix.len() as int) =~= prefix);
            } else {
                assert(w[k] == rest[k - 1 - sub.len()]);
            }
        }
        assert forall|i: int| #![trigger cmds[i]] 0 <= i < cmds.len() implies exists|k: int|
            0 <= k < w.len() && #[trigger] w[k] == (prefix.push(cmds[i].canonical@), cmds[i]) by {
            if i == 0 {
                assert(w[0] == (prefix.push(cmds[i].canonical@), cmds[i]));
            } else {
                assert(cmds.drop_first()[i - 1] == cmds[i]);
                let m = choose|m: int|
                    0 <= m < rest.len() && #[trigger] rest[m] == (prefix.push(cmds.drop_first()[i - 1].canonical@), cmds.drop_first()[i - 1]);
                assert(w[1 + sub.len() + m] == rest[m]);
            }
        }
    }
}

/// Sorting keeps every entry.
proof fn lemma_sort_contains(s: Seq<(int, int)>, e: (int, int))
    requires
        s.contains(e),
    ensures
        sort_by_score(s).contains(e),
    decreases s.len(),
{
    let t = sort_by_score(s.drop_last());
    let p = first_where(0, t.len() as int, score_below(t, s.last().1));
    crate::model::lemma_first_where_spec(0, t.len() as int, score_below(t, s.last().1));
    let r = t.insert(p, s.last());
    assert(sort_by_score(s) == r);
    if s.last() == e {
        assert(r[p] == e);
    } else {
        let k = choose|k: int| 0 <= k < s.len() && s[k] == e;
        assert(s.drop_last()[k] == e);
        lemma_sort_contains(s.drop_last(), e);
        let m = choose|m: int| 0 <= m < t.len() && t[m] == e;
        if m < p {
            assert(r[m] == e);
        } else {
            assert(r[m + 1] == e);
        }
    }
}

/// The number of words found lies between 0 and the number of words, and
/// is at least 1 when some word occurs in the text.
proof fn lemma_words_found(words: Seq<Seq<char>>, text: Seq<char>, m: int)
    ensures
        0 <= words_found(words, text) <= words.len(),
        0 <= m < words.len() && contains_seq(text, words[m]) ==> words_found(words, text) >= 1,
    decreases words.len(),
{
    if words.len() > 0 {
        lemma_words_found(words.drop_last(), text, m);
        if 0 <= m < words.len() - 1 {
            assert(words.drop_last()[m] == words[m]);
        }
    }
}

/// A phrase word found in any of a command's lowercased canonical name,
/// aliases, semantic aliases, summary or description makes the command an
/// intent match: it is in the ranking with a positive score.
pub proof fn lemma_intent_word_matches(cmds: Seq<Command>, phrase: Seq<char>, i: int, w: Seq<char>)
    requires
        0 <= i < cmds.len(),
        split_ws(lowercase(phrase)).contains(w),
        split_ws(lowercase(phrase)).len() <= u32::MAX,
        ({
            let c = cmds[i];
            ||| contains_seq(lowercase(c.canonical@), w)
            ||| exists|j: int| 0 <= j < c.aliases@.len() && contains_seq(lowercase(#[trigger] c.aliases@[j]@), w)
            ||| exists|j: int|
                0 <= j < c.semantic_aliases@.len() && contains_seq(lowercase(#[trigger] c.semantic_aliases@[j]@), w)
            ||| contains_seq(lowercase(c.summary@), w)
            ||| contains_seq(lowercase(c.description@), w)
        }),
    ensures
        exists|k: int|
            0 <= k < intent_ranking(cmds, phrase).len() && (#[trigger] intent_ranking(cmds, phrase)[k]).0 == i
                && intent_ranking(cmds, phrase)[k].1 >= 1,
{
    let c = cmds[i];
    let sp = seq![' '];
    let a = lowercase(c.canonical@);
    let b = lower_joined(c.aliases@);
    let d = lower_joined(c.semantic_aliases@);
    let e = lowercase(c.summary@);
    let f = lowercase(c.description@);
    let text = intent_text(c);
    assert(text == a + sp + b + sp + d + sp + e + sp + f);
    if contains_seq(a, w) {
        crate::text::lemma_contains_within(seq![], a, sp + b + sp + d + sp + e + sp + f, w);
        assert(seq![] + a + (sp + b + sp + d + sp + e + sp + f) =~= text);
    } else if exists|j: int| 0 <= j < c.aliases@.len() && contains_seq(lowercase(#[trigger] c.aliases@[j]@), w) {
        let j = choose|j: int| 0 <= j < c.aliases@.len() && contains_seq(lowercase(#[trigger] c.aliases@[j]@), w);
        let parts = c.aliases@.map_values(|s: String| lowercase(s@));
        crate::text::lemma_join_contains(parts, sp, j);
        crate::text::lemma_contains_trans(b, parts[j], w);
        crate::text::lemma_contains_within(a + sp, b, sp + d + sp + e + sp + f, w);
        assert(a + sp + b + (sp + d + sp + e + sp + f) =~= text);
    } else if exists|j: int|
        0 <= j < c.semantic_aliases@.len() && contains_seq(lowercase(#[trigger] c.semantic_aliases@[j]@), w) {
        let j = choose|j: int|
            0 <= j < c.semantic_aliases@.len() && contains_seq(lowercase(#[trigger] c.semantic_aliases@[j]@), w);
        let parts = c.semantic_aliases@.map_values(|s: String| lowercase(s@));
        crate::text::lemma_join_contains(parts, sp, j);
        crate::text::lemma_contains_trans(d, parts[j], w);
        crate::text::lemma_contains_within(a + sp + b + sp, d, sp + e + sp + f, w);
        assert(a + sp + b + sp + d + (sp + e + sp + f) =~= text);
    } else if contains_seq(e, w) {
        crate::text::lemma_contains_within(a + sp + b + sp + d + sp, e, sp + f, w);
        assert(a + sp + b + sp + d + sp + e + (sp + f) =~= text);
    } else {
        crate::text::lemma_contains_within(a + sp + b + sp + d + sp + e + sp, f, seq![], w);
        assert(a + sp + b + sp + d + sp + e + sp + f + seq![] =~= text);
    }
    let words = split_ws(lowercase(phrase));
    let m = choose|m: int| 0 <= m < words.len() && words[m] == w;
    lemma_words_found(words, text, m);
    let score = intent_score(cmds, phrase, i);
    assert(score == words_found(words, text));
    let p = scored_positive(cmds, phrase);
    assert(p(i));
    let idx = indices_where(cmds.len() as int, p);
    crate::resolver::lemma_indices_where_members(cmds.len() as int, p);
    assert(idx.contains(i));
    let x = choose|x: int| 0 <= x < idx.len() && idx[x] == i;
    let s = idx.map_values(|n: int| (n, intent_score(cmds, phrase, n)));
    assert(s[x] == (i, score));
    lemma_sort_contains(s, (i, score));
    let r = intent_ranking(cmds, phrase);
    let k = choose|k: int| 0 <= k < r.len() && r[k] == (i, score);
    assert(r[k].0 == i);
}

/// Fuzzy matches come best first: the ranking's scores never increase.
pub proof fn lemma_fuzzy_ranking_descending(cmds: Seq<Command>, query: Seq<char>)
    ensures
        scores_descending(fuzzy_ranking(cmds, query)),
{
    let p = fuzzy_hit(cmds, query);
    let s = indices_where(cmds.len() as int, p).map_values(
        |i: int| (i, skim_score(fuzzy_text(cmds[i]), query).unwrap() as int),
    );
    lemma_sort_by_score_descending(s);
}

impl Registry {
    /// Commands whose intent text contains words of `phrase` (lowercased and
    /// split on whitespace), with the number of words found, best first;
    /// commands with equal scores keep registration order.
    pub fn match_intent(&self, phrase: &str) -> (r: Vec<(&Command, u32)>)
        ensures
            ({
                let ranked = intent_ranking(self.commands@, phrase@);
                r@.len() == ranked.len() && forall|k: int|
                    0 <= k < r@.len() ==> *(#[trigger] r@[k]).0 == self.commands@[ranked[k].0]
                        && r@[k].1 == ranked[k].1
            }),
    {
        let low = to_lowercase(phrase);
        let words = split_whitespace(low.as_str());
        let ghost p = scored_positive(self.commands@, phrase@);
        let mut entries: Vec<(usize, i64)> = Vec::new();
        let mut i: usize = 0;
        while i < self.commands.len()
            invariant
                i <= self.commands@.len(),
                views(words@) == split_ws(lowercase(phrase@)),
                p == scored_positive(self.commands@, phrase@),
                as_int_pairs(entries@) == indices_where(i as int, p).map_values(
                    |k: int| (k, intent_score(self.commands@, phrase@, k)),
                ),
            decreases self.commands.len() - i,
        {
            let text = chars_of(intent_text_exec(&self.commands[i]).as_str());
            let found = count_found(&words, &text);
            let score: u32 = found as u32;
            proof {
                assert(score as int == intent_score(self.commands@, phrase@, i as int));
            }
            let ghost prev = entries@;
            if score > 0 {
                entries.push((i, score as i64));
                proof {
                    assert(indices_where(i + 1, p) == indices_where(i as int, p).push(i as int));
                    assert(as_int_pairs(entries@) =~= as_int_pairs(prev).push((i as int, score as int)));
                }
            }
            proof {
                if score == 0 {
                    assert(indices_where(i + 1, p) == indices_where(i as int, p));
                }
                assert(as_int_pairs(entries@) =~= indices_where(i + 1, p).map_values(
                    |k: int| (k, intent_score(self.commands@, phrase@, k)),
                ));
            }
            i = i + 1;
        }
        let ranked = sort_entries(&entries);
        proof {
            crate::resolver::lemma_indices_where_bounds(self.commands@.len() as int, p);
            assert forall|k: int| 0 <= k < as_int_pairs(entries@).len() implies 0 <= (#[trigger] as_int_pairs(entries@)[k]).0 < self.commands@.len() && 0 <= as_int_pairs(entries@)[k].1 <= u32::MAX by {
                assert(as_int_pairs(entries@)[k] == indices_where(self.commands@.len() as int, p).map_values(
                    |k: int| (k, intent_score(self.commands@, phrase@, k)))[k]);
            }
            lemma_sort_keeps_members(as_int_pairs(entries@), self.commands@.len() as int, u32::MAX as int);
            assert forall|k: int| 0 <= k < ranked@.len() implies (#[trigger] ranked@[k]).0 < self.commands@.len() && 0 <= ranked@[k].1 <= u32::MAX by {
                assert(as_int_pairs(ranked@)[k] == (ranked@[k].0 as int, ranked@[k].1 as int));
            }
        }
        let picked = pick_ranked(&self.commands, &ranked);
        let mut out: Vec<(&Command, u32)> = Vec::new();
        let mut k: usize = 0;
        while k < picked.len()
            invariant
                k <= picked@.len(),
                out@.len() == k,
                forall|m: int| 0 <= m < k ==> (#[trigger] out@[m]).0 == picked@[m].0 && out@[m].1 as int == picked@[m].1 as int,
                forall|m: int| 0 <= m < picked@.len() ==> 0 <= (#[trigger] picked@[m]).1 <= u32::MAX,
            decreases picked.len() - k,
        {
            let (c, s) = picked[k];
            out.push((c, s as u32));
            k = k + 1;
        }
        out
    }

    /// Commands the fuzzy matcher accepts for `query` over their canonical
    /// name, summary and description, best score first; equal scores keep
    /// registration order.
    pub fn fuzzy_search(&self, query: &str) -> (r: Vec<(&Command, i64)>)
        ensures
            ({
                let ranked = fuzzy_ranking(self.commands@, query@);
                r@.len() == ranked.len() && forall|k: int|
                    0 <= k < r@.len() ==> *(#[trigger] r@[k]).0 == self.commands@[ranked[k].0]
                        && r@[k].1 as int == ranked[k].1
            }),
    {
        let ghost p = fuzzy_hit(self.commands@, query@);
        let mut entries: Vec<(usize, i64)> = Vec::new();
        let mut i: usize = 0;
        while i < self.commands.len()
            invariant
                i <= self.commands@.len(),
                p == fuzzy_hit(self.commands@, query@),
                as_int_pairs(entries@) == indices_where(i as int, p).map_values(
                    |k: int| (k, skim_score(fuzzy_text(self.commands@[k]), query@).unwrap() as int),
                ),
            decreases self.commands.len() - i,
        {
            let text = fuzzy_text_exec(&self.commands[i]);
            let ghost prev = entries@;
            match skim_match(text.as_str(), query) {
                Some(score) => {
                    entries.push((i, score));
                    proof {
                        assert(indices_where(i + 1, p) == indices_where(i as int, p).push(i as int));
                        assert(as_int_pairs(entries@) =~= as_int_pairs(prev).push((i as int, score as int)));
                    }
                },
                None => {
                    proof {
                        assert(indices_where(i + 1, p) == indices_where(i as int, p));
                    }
                },
            }
            proof {
                assert(as_int_pairs(entries@) =~= indices_where(i + 1, p).map_values(
                    |k: int| (k, skim_score(fuzzy_text(self.commands@[k]), query@).unwrap() as int),
                ));
            }
            i = i + 1;
        }
        let ranked = sort_entries(&entries);
        proof {
            crate::resolver::lemma_indices_where_bounds(self.commands@.len() as int, p);
            assert forall|k: int| 0 <= k < as_int_pairs(entries@).len() implies 0 <= (#[trigger] as_int_pairs(entries@)[k]).0 < self.commands@.len() && 0 <= as_int_pairs(entries@)[k].1 + 0x8000_0000_0000_0000 <= u64::MAX by {
                assert(as_int_pairs(entries@)[k] == (entries@[k].0 as int, entries@[k].1 as int));
            }
            lemma_sort_keeps_index(as_int_pairs(entries@), self.commands@.len() as int);
            assert forall|k: int| 0 <= k < ranked@.len() implies (#[trigger] ranked@[k]).0 < self.commands@.len() by {
                assert(as_int_pairs(ranked@)[k] == (ranked@[k].0 as int, ranked@[k].1 as int));
            }
        }
        pick_ranked(&self.commands, &ranked)
    }
}

/// Sorting keeps indices below `n`.
proof fn lemma_sort_keeps_index(s: Seq<(int, int)>, n: int)
    requires
        forall|k: int| 0 <= k < s.len() ==> 0 <= (#[trigger] s[k]).0 < n,
    ensures
        forall|k: int| 0 <= k < sort_by_score(s).len() ==> 0 <= (#[trigger] sort_by_score(s)[k]).0 < n,
    decreases s.len(),
{
    if s.len() > 0 {
        lemma_sort_keeps_index(s.drop_last(), n);
        let t = sort_by_score(s.drop_last());
        let p = first_where(0, t.len() as int, score_below(t, s.last().1));
        crate::model::lemma_first_where_spec(0, t.len() as int, score_below(t, s.last().1));
        assert forall|k: int| 0 <= k < t.insert(p, s.last()).len() implies 0 <= (#[trigger] t.insert(p, s.last())[k]).0 < n by {
            if k > p {
                assert(t.insert(p, s.last())[k] == t[k - 1]);
            }
        }
    }
}

// ── Depth-first walk ────────────────────────────────────────────────────────

/// Every command of the list `cmds` and of their subtrees, depth-first in
/// pre-order, each with the canonical names leading to it below `prefix`.
pub open spec fn walk_all(cmds: Seq<Command>, prefix: Seq<Seq<char>>) -> Seq<
    (Seq<Seq<char>>, Command),
>
    decreases cmds,
{
    if cmds.len() == 0 {
        seq![]
    } else {
        let c = cmds[0];
        let p = prefix.push(c.canonical@);
        proof {
            assert(decreases_to!(cmds => cmds[0]));
            assert(decreases_to!(cmds[0] => cmds[0].subcommands));
            assert(decreases_to!(cmds[0].subcommands => cmds[0].subcommands@));
            vstd::seq::axiom_seq_len_decreases(cmds, cmds.drop_first());
        }
        seq![(p, c)] + walk_all(c.subcommands@, p) + walk_all(cmds.drop_first(), prefix)
    }
}

/// The entries of a walk, as paths and commands.
pub open spec fn entries_view(v: Seq<CommandEntry>) -> Seq<(Seq<Seq<char>>, Command)> {
    v.map_values(|e: CommandEntry| (views(e.path@), *e.command))
}

/// A copy of a list of strings.
fn copy_path(v: &Vec<String>) -> (r: Vec<String>)
    ensures
        views(r@) == views(v@),
{
    let mut out: Vec<String> = Vec::new();
    let mut i: usize = 0;
    while i < v.len()
        invariant
            i <= v@.len(),
            views(out@) == views(v@).take(i as int),
        decreases v.len() - i,
    {
        let ghost prev = out@;
        out.push(v[i].clone());
        proof {
            assert(views(out@) =~= views(prev).push(v@[i as int]@));
            assert(views(out@) =~= views(v@).take(i + 1));
        }
        i = i + 1;
    }
    proof {
        assert(views(v@).take(v@.len() as int) =~= views(v@));
    }
    out
}

/// Append the walk of `cmds[from..]` below `prefix` to `out`.
fn collect_from<'a>(
    cmds: &'a Vec<Command>,
    from: usize,
    prefix: &Vec<String>,
    out: &mut Vec<CommandEntry<'a>>,
)
    requires
        from <= cmds@.len(),
    ensures
        entries_view(final(out)@) == entries_view(old(out)@) + walk_all(
            cmds@.subrange(from as int, cmds@.len() as int),
            views(prefix@),
        ),
    decreases cmds@.subrange(from as int, cmds@.len() as int),
{
    let ghost s = cmds@.subrange(from as int, cmds@.len() as int);
    if from >= cmds.len() {
        proof {
            assert(entries_view(out@) =~= entries_view(out@) + Seq::<(Seq<Seq<char>>, Command)>::empty());
        }
        return ;
    }
    let c = &cmds[from];
    let mut path = copy_path(prefix);
    let ghost pv = views(path@);
    path.push(c.canonical.clone());
    proof {
        assert(views(path@) =~= pv.push(c.canonical@));
    }
    let ghost before = out@;
    out.push(CommandEntry { path: copy_path(&path), command: c });
    let ghost after_one = out@;
    proof {
        assert(entries_view(after_one) =~= entries_view(before).push((views(path@), *c)));
        assert(s[0] == *c);
        assert(decreases_to!(s => s[0]));
        assert(decreases_to!(s[0] => s[0].subcommands));
        assert(decreases_to!(s[0].subcommands => s[0].subcommands@));
        assert(c.subcommands@.subrange(0, c.subcommands@.len() as int) =~= c.subcommands@);
    }
    collect_from(&c.subcommands, 0, &path, out);
    let ghost after_sub = out@;
    proof {
        assert(s.drop_first() =~= cmds@.subrange(from + 1, cmds@.len() as int));
        vstd::seq::axiom_seq_len_decreases(s, s.drop_first());
    }
    collect_from(cmds, from + 1, prefix, out);
    proof {
        assert(entries_view(out@) =~= entries_view(before) + walk_all(s, views(prefix@)));
    }
}

impl Registry {
    /// Every command of the tree, depth-first in pre-order, with the canonical
    /// names leading to it.
    pub fn iter_all_recursive(&self) -> (r: Vec<CommandEntry<'_>>)
        ensures
            entries_view(r@) == walk_all(self.commands@, seq![]),
    {
        let mut out: Vec<CommandEntry> = Vec::new();
        let prefix: Vec<String> = Vec::new();
        proof {
            assert(views(prefix@) =~= Seq::<Seq<char>>::empty());
            assert(self.commands@.subrange(0, self.commands@.len() as int) =~= self.commands@);
            assert(entries_view(out@) =~= Seq::<(Seq<Seq<char>>, Command)>::empty());
        }
        collect_from(&self.commands, 0, &prefix, &mut out);
        proof {
            assert(entries_view(out@) =~= walk_all(self.commands@, seq![]));
        }
        out
    }
}

// ── Field selection for JSON output ─────────────────────────────────────────

/// The requested field names that the object has, in request order, each
/// once.
pub open spec fn selection(requested: Seq<Seq<char>>, present: Seq<Seq<char>>) -> Seq<Seq<char>>
    decreases requested.len(),
{
    if requested.len() == 0 {
        seq![]
    } else {
        let s = selection(requested.drop_last(), present);
        let x = requested.last();
        if present.contains(x) && !s.contains(x) {
            s.push(x)
        } else {
            s
        }
    }
}

/// Whether `x` is among the strings of `v`.
fn has_string(v: &Vec<String>, x: &str) -> (r: bool)
    ensures
        r == views(v@).contains(x@),
{
    let mut i: usize = 0;
    while i < v.len()
        invariant
            i <= v@.len(),
            forall|k: int| 0 <= k < i ==> (#[trigger] v@[k])@ != x@,
        decreases v.len() - i,
    {
        if crate::text::str_eq(v[i].as_str(), x) {
            proof {
                assert(views(v@)[i as int] == x@);
            }
            return true;
        }
        i = i + 1;
    }
    proof {
        if views(v@).contains(x@) {
            let k = choose|k: int| 0 <= k < views(v@).len() && views(v@)[k] == x@;
            assert(v@[k]@ == x@);
        }
    }
    false
}

/// Which top-level keys of a command's JSON object (whose keys are
/// `present`) to keep for the requested field names: `None` (keep every
/// key) when none is requested, else the requested names the object has,
/// in request order, each once. Where `subcommands` is kept, each
/// subcommand's object is filtered the same way.
pub fn field_selection(requested: &Vec<String>, present: &Vec<String>) -> (r: Option<Vec<String>>)
    ensures
        requested@.len() == 0 <==> r is None,
        r matches Some(v) ==> views(v@) == selection(views(requested@), views(present@)),
{
    if requested.len() == 0 {
        return None;
    }
    let ghost req = views(requested@);
    let ghost pres = views(present@);
    let mut out: Vec<String> = Vec::new();
    let mut i: usize = 0;
    while i < requested.len()
        invariant
            i <= requested@.len(),
            req == views(requested@),
            pres == views(present@),
            views(out@) == selection(req.take(i as int), pres),
        decreases requested.len() - i,
    {
        let x = requested[i].as_str();
        proof {
            assert(req.take(i + 1).drop_last() =~= req.take(i as int));
            assert(req.take(i + 1).last() == x@);
        }
        if has_string(present, x) && !has_string(&out, x) {
            let ghost before = out@;
            out.push(String::from_str(x));
            proof {
                assert(views(out@) =~= views(before).push(x@));
            }
        }
        i = i + 1;
    }
    proof {
        assert(req.take(requested@.len() as int) =~= req);
    }
    Some(out)
}

} // verus!
