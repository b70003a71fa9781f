//! Resolution of a typed word to a command: exact match first (canonical
//! name, aliases and spellings, ignoring case), then a unique prefix of the
//! canonical name or an alias; otherwise the word is ambiguous or unknown.
use vstd::prelude::*;
use crate::model::{first_where, lemma_first_where_at, lemma_first_where_none, Command};
use crate::text::{lowercase, starts_with, str_starts_with, to_lowercase, views};

verus! {

/// Why a word did not resolve to exactly one command.
#[derive(Debug, PartialEq, Eq)]
pub enum ResolveError {
    /// No command matched; `suggestions` holds up to three canonical names
    /// that are near misses of the input.
    Unknown { input: String, suggestions: Vec<String> },
    /// The word is a prefix of several commands; `candidates` holds their
    /// canonical names in registration order.
    Ambiguous { input: String, candidates: Vec<String> },
}

/// [`ResolveError`] with its strings taken as character sequences.
pub enum ResolveErrorView {
    Unknown(Seq<char>, Seq<Seq<char>>),
    Ambiguous(Seq<char>, Seq<Seq<char>>),
}

impl View for ResolveError {
    type V = ResolveErrorView;

    open spec fn view(&self) -> ResolveErrorView {
        match self {
            ResolveError::Unknown { input, suggestions } => ResolveErrorView::Unknown(
                input@,
                views(suggestions@),
            ),
            ResolveError::Ambiguous { input, candidates } => ResolveErrorView::Ambiguous(
                input@,
                views(candidates@),
            ),
        }
    }
}

/// Where resolving a word against a list of commands leads.
pub enum Resolution {
    /// The command at this index.
    Found(int),
    /// No match, with the suggested canonical names.
    Unknown(Seq<Seq<char>>),
    /// Several prefix matches, with their canonical names.
    Ambiguous(Seq<Seq<char>>),
}

/// `a` can be obtained from `b` by deleting characters.
pub open spec fn is_subseq(a: Seq<char>, b: Seq<char>) -> bool
    decreases a.len() + b.len(),
{
    if a.len() == 0 {
        true
    } else if b.len() == 0 {
        false
    } else if a[0] == b[0] {
        is_subseq(a.drop_first(), b.drop_first())
    } else {
        is_subseq(a, b.drop_first())
    }
}

/// The indices in `[0, n)` at which `p` holds, in increasing order.
pub open spec fn indices_where(n: int, p: spec_fn(int) -> bool) -> Seq<int>
    decreases n,
{
    if n <= 0 {
        seq![]
    } else if p(n - 1) {
        indices_where(n - 1, p).push(n - 1)
    } else {
        indices_where(n - 1, p)
    }
}

/// Some string of `v`, lowercased, equals `low`.
pub open spec fn some_lower_eq(v: Seq<String>, low: Seq<char>) -> bool {
    exists|i: int| 0 <= i < v.len() && lowercase(#[trigger] v[i]@) == low
}

/// Some string of `v`, lowercased, starts with `low`.
pub open spec fn some_lower_starts(v: Seq<String>, low: Seq<char>) -> bool {
    exists|i: int| 0 <= i < v.len() && starts_with(lowercase(#[trigger] v[i]@), low)
}

/// The command is named `low` exactly (canonical, alias or spelling,
/// ignoring case).
pub open spec fn exact_match(c: Command, low: Seq<char>) -> bool {
    lowercase(c.canonical@) == low || some_lower_eq(c.aliases@, low) || some_lower_eq(
        c.spellings@,
        low,
    )
}

/// `low` is a prefix of the command's canonical name or of an alias,
/// ignoring case.
pub open spec fn prefix_match(c: Command, low: Seq<char>) -> bool {
    starts_with(lowercase(c.canonical@), low) || some_lower_starts(c.aliases@, low)
}

/// The canonical name is a near miss of `low`: one of the two, lowercased,
/// is obtained from the other by deleting characters.
pub open spec fn near_miss(c: Command, low: Seq<char>) -> bool {
    is_subseq(low, lowercase(c.canonical@)) || is_subseq(lowercase(c.canonical@), low)
}

pub open spec fn exact_at(cmds: Seq<Command>, low: Seq<char>) -> spec_fn(int) -> bool {
    |i: int| exact_match(cmds[i], low)
}

pub open spec fn prefix_at(cmds: Seq<Command>, low: Seq<char>) -> spec_fn(int) -> bool {
    |i: int| prefix_match(cmds[i], low)
}

pub open spec fn near_at(cmds: Seq<Command>, low: Seq<char>) -> spec_fn(int) -> bool {
    |i: int| near_miss(cmds[i], low)
}

/// The canonical names of the commands at the given indices.
pub open spec fn names_at(cmds: Seq<Command>, idx: Seq<int>) -> Seq<Seq<char>> {
    idx.map_values(|i: int| cmds[i].canonical@)
}

/// How `input` resolves against `cmds`.
pub open spec fn resolution(cmds: Seq<Command>, input: Seq<char>) -> Resolution {
    let low = lowercase(input);
    let n = cmds.len() as int;
    let e = first_where(0, n, exact_at(cmds, low));
    let pm = indices_where(n, prefix_at(cmds, low));
    let nm = indices_where(n, near_at(cmds, low));
    if e < n {
        Resolution::Found(e)
    } else if pm.len() == 1 {
        Resolution::Found(pm[0])
    } else if pm.len() > 1 {
        Resolution::Ambiguous(names_at(cmds, pm))
    } else {
        Resolution::Unknown(names_at(cmds, nm.take(if nm.len() < 3 { nm.len() as int } else { 3 })))
    }
}

/// `r` is what resolving `input` against `cmds` gives.
pub open spec fn resolves_as(cmds: Seq<Command>, input: Seq<char>, r: Result<&Command, ResolveError>) -> bool {
    match resolution(cmds, input) {
        Resolution::Found(i) => r matches Ok(c) && *c == cmds[i],
        Resolution::Unknown(s) => r matches Err(ResolveError::Unknown { input: x, suggestions })
            && x@ == input && views(suggestions@) == s,
        Resolution::Ambiguous(s) => r matches Err(ResolveError::Ambiguous { input: x, candidates })
            && x@ == input && views(candidates@) == s,
    }
}

pub proof fn lemma_indices_where_bounds(n: int, p: spec_fn(int) -> bool)
    ensures
        forall|k: int| 0 <= k < indices_where(n, p).len() ==> 0 <= #[trigger] indices_where(n, p)[k] < n,
    decreases n,
{
    if n > 0 {
        lemma_indices_where_bounds(n - 1, p);
        let prev = indices_where(n - 1, p);
        if p(n - 1) {
            assert(indices_where(n, p) == prev.push(n - 1));
            assert forall|k: int| 0 <= k < indices_where(n, p).len() implies 0
                <= #[trigger] indices_where(n, p)[k] < n by {
                if k < prev.len() {
                    assert(indices_where(n, p)[k] == prev[k]);
                }
            }
        }
    }
}

/// Whether `a` can be obtained from `b` by deleting characters.
pub fn subsequence(a: &Vec<char>, b: &Vec<char>) -> (r: bool)
    ensures
        r == is_subseq(a@, b@),
{
    let mut i: usize = 0;
    let mut j: usize = 0;
    assert(a@.subrange(0, a.len() as int) == a@);
    assert(b@.subrange(0, b.len() as int) == b@);
    while i < a.len() && j < b.len()
        invariant
            i <= a.len(),
            j <= b.len(),
            is_subseq(a@, b@) == is_subseq(
                a@.subrange(i as int, a.len() as int),
                b@.subrange(j as int, b.len() as int),
            ),
        decreases a.len() - i + b.len() - j,
    {
        let ghost sa = a@.subrange(i as int, a.len() as int);
        let ghost sb = b@.subrange(j as int, b.len() as int);
        assert(sa.drop_first() == a@.subrange(i + 1, a.len() as int));
        assert(sb.drop_first() == b@.subrange(j + 1, b.len() as int));
        if a[i] == b[j] {
            i = i + 1;
        }
        j = j + 1;
    }
    i == a.len()
}

/// Whether a list of strings holds one whose lowercase form equals `low`.
fn any_lower_eq(v: &Vec<String>, low: &String) -> (r: bool)
    ensures
        r == some_lower_eq(v@, low@),
{
    let mut i: usize = 0;
    while i < v.len()
        invariant
            i <= v.len(),
            forall|k: int| 0 <= k < i ==> lowercase(#[trigger] v@[k]@) != low@,
        decreases v.len() - i,
    {
        if to_lowercase(v[i].as_str()) == *low {
            return true;
        }
        i = i + 1;
    }
    false
}

/// Whether a list of strings holds one whose lowercase form starts with `low`.
fn any_lower_starts(v: &Vec<String>, low: &String) -> (r: bool)
    ensures
        r == some_lower_starts(v@, low@),
{
    let mut i: usize = 0;
    while i < v.len()
        invariant
            i <= v.len(),
            forall|k: int| 0 <= k < i ==> !starts_with(lowercase(#[trigger] v@[k]@), low@),
        decreases v.len() - i,
    {
        let l = to_lowercase(v[i].as_str());
        if str_starts_with(l.as_str(), low.as_str()) {
            return true;
        }
        i = i + 1;
    }
    false
}

/// Resolves words against a list of commands.
pub struct Resolver<'a> {
    /// The commands words are resolved against.
    pub commands: &'a [Command],
}

impl<'a> Resolver<'a> {
    /// A resolver over `commands`.
    pub fn new(commands: &'a [Command]) -> (r: Self)
        ensures
            r.commands@ == commands@,
    {
        Resolver { commands }
    }

    /// Resolve `input`: the first command named `input` exactly (ignoring
    /// case), else the only command with `input` as a prefix of its canonical
    /// name or an alias; several prefix matches are ambiguous, none unknown.
    pub fn resolve(&self, input: &str) -> (r: Result<&'a Command, ResolveError>)
        ensures
            resolves_as(self.commands@, input@, r),
    {
        let cmds: &'a [Command] = self.commands;
        let n = cmds.len();
        let low = to_lowercase(input);
        let ghost lowv = low@;
        let mut i: usize = 0;
        while i < n
            invariant
                n == cmds@.len(),
                cmds@ == self.commands@,
                low@ == lowv,
                lowv == lowercase(input@),
                i <= n,
                forall|k: int| 0 <= k < i ==> !(#[trigger] exact_at(cmds@, lowv)(k)),
            decreases n - i,
        {
            let c = &cmds[i];
            if to_lowercase(c.canonical.as_str()) == low || any_lower_eq(&c.aliases, &low)
                || any_lower_eq(&c.spellings, &low) {
                proof {
                    lemma_first_where_at(0, n as int, exact_at(cmds@, lowv), i as int);
                }
                return Ok(c);
            }
            i = i + 1;
        }
        proof {
            lemma_first_where_none(0, n as int, exact_at(cmds@, lowv));
        }
        let mut pm: Vec<usize> = Vec::new();
        let mut nm: Vec<usize> = Vec::new();
        let mut i: usize = 0;
        while i < n
            invariant
                n == cmds@.len(),
                low@ == lowv,
                i <= n,
                pm@.map_values(|k: usize| k as int) == indices_where(i as int, prefix_at(cmds@, lowv)),
                nm@.map_values(|k: usize| k as int) == indices_where(i as int, near_at(cmds@, lowv)),
            decreases n - i,
        {
            let c = &cmds[i];
            let lc = to_lowercase(c.canonical.as_str());
            if str_starts_with(lc.as_str(), low.as_str()) || any_lower_starts(&c.aliases, &low) {
                pm.push(i);
            }
            let lcv = crate::text::chars_of(lc.as_str());
            let lowc = crate::text::chars_of(low.as_str());
            if subsequence(&lowc, &lcv) || subsequence(&lcv, &lowc) {
                nm.push(i);
            }
            proof {
                assert(pm@.map_values(|k: usize| k as int) =~= indices_where(i + 1, prefix_at(cmds@, lowv)));
                assert(nm@.map_values(|k: usize| k as int) =~= indices_where(i + 1, near_at(cmds@, lowv)));
            }
            i = i + 1;
        }
        proof {
            lemma_indices_where_bounds(n as int, prefix_at(cmds@, lowv));
            lemma_indices_where_bounds(n as int, near_at(cmds@, lowv));
            assert forall|m: int| 0 <= m < pm@.len() implies #[trigger] pm@[m] < n by {
                assert(pm@.map_values(|k: usize| k as int)[m] == pm@[m] as int);
            }
            assert forall|m: int| 0 <= m < nm@.len() implies #[trigger] nm@[m] < n by {
                assert(nm@.map_values(|k: usize| k as int)[m] == nm@[m] as int);
            }
        }
        if pm.len() == 1 {
            proof {
                assert(pm@.map_values(|x: usize| x as int)[0] == pm@[0] as int);
            }
            return Ok(&cmds[pm[0]]);
        }
        if pm.len() > 1 {
            let mut names: Vec<String> = Vec::new();
            let mut k: usize = 0;
            while k < pm.len()
                invariant
                    n == cmds@.len(),
                    k <= pm@.len(),
                    pm@.map_values(|x: usize| x as int) == indices_where(n as int, prefix_at(cmds@, lowv)),
                    forall|m: int| 0 <= m < pm@.len() ==> #[trigger] pm@[m] < n,
                    names@.len() == k,
                    forall|m: int| 0 <= m < k ==> (#[trigger] names@[m])@ == names_at(cmds@, indices_where(n as int, prefix_at(cmds@, lowv)))[m],
                decreases pm.len() - k,
            {
                assert(pm@.map_values(|x: usize| x as int)[k as int] == pm@[k as int] as int);
                assert(names_at(cmds@, indices_where(n as int, prefix_at(cmds@, lowv)))[k as int]
                    == cmds@[pm@[k as int] as int].canonical@);
                names.push(cmds[pm[k]].canonical.clone());
                proof {
                    assert(pm@.map_values(|x: usize| x as int).len() == pm@.len());
                    assert(names_at(cmds@, indices_where(n as int, prefix_at(cmds@, lowv))).len() == pm@.len());
                    
                }
                k = k + 1;
            }
            proof {
                assert(pm@.map_values(|x: usize| x as int).len() == pm@.len());
                assert(views(names@) =~= names_at(cmds@, indices_where(n as int, prefix_at(cmds@, lowv))));
            }
            return Err(ResolveError::Ambiguous { input: String::from_str(input), candidates: names });
        }
        let limit: usize = if nm.len() < 3 { nm.len() } else { 3 };
        let mut names: Vec<String> = Vec::new();
        let mut k: usize = 0;
        while k < limit
            invariant
                n == cmds@.len(),
                k <= limit <= nm@.len(),
                nm@.map_values(|x: usize| x as int) == indices_where(n as int, near_at(cmds@, lowv)),
                forall|m: int| 0 <= m < nm@.len() ==> #[trigger] nm@[m] < n,
                names@.len() == k,
                forall|m: int| 0 <= m < k ==> (#[trigger] names@[m])@ == names_at(cmds@, indices_where(n as int, near_at(cmds@, lowv)))[m],
            decreases limit - k,
        {
            assert(nm@.map_values(|x: usize| x as int)[k as int] == nm@[k as int] as int);
            assert(names_at(cmds@, indices_where(n as int, near_at(cmds@, lowv)))[k as int]
                == cmds@[nm@[k as int] as int].canonical@);
            names.push(cmds[nm[k]].canonical.clone());
            proof {
                assert(nm@.map_values(|x: usize| x as int).len() == nm@.len());
                assert(names_at(cmds@, indices_where(n as int, near_at(cmds@, lowv))).len() == nm@.len());
                
            }
            k = k + 1;
        }
        proof {
            assert(nm@.map_values(|x: usize| x as int).len() == nm@.len());
            assert(views(names@) =~= names_at(cmds@, indices_where(n as int, near_at(cmds@, lowv)).take(limit as int)));
        }
        Err(ResolveError::Unknown { input: String::from_str(input), suggestions: names })
    }
}


/// The text of a resolution error.
pub open spec fn resolve_error_message(e: ResolveErrorView) -> Seq<char> {
    match e {
        ResolveErrorView::Unknown(input, _) => "unknown command: `"@ + input + "`"@,
        ResolveErrorView::Ambiguous(input, candidates) => "ambiguous command `"@ + input
            + "`: could be "@ + crate::text::join(candidates, ", "@),
    }
}

impl ResolveError {
    /// The human-readable text, e.g. ``unknown command: `lst` ``.
    pub fn message(&self) -> (r: String)
        ensures
            r@ == resolve_error_message(self@),
    {
        match self {
            ResolveError::Unknown { input, .. } => {
                let mut r = String::from_str("unknown command: `");
                r.append(input.as_str());
                r.append("`");
                r
            },
            ResolveError::Ambiguous { input, candidates } => {
                let mut r = String::from_str("ambiguous command `");
                r.append(input.as_str());
                r.append("`: could be ");
                let j = crate::text::join_strings(candidates, &String::from_str(", "));
                r.append(j.as_str());
                r
            },
        }
    }
}


// ── Laws of resolution ──────────────────────────────────────────────────────

/// The positions listed by `indices_where` increase strictly.
pub proof fn lemma_indices_where_increasing(n: int, p: spec_fn(int) -> bool)
    ensures
        forall|a: int, b: int|
            0 <= a < b < indices_where(n, p).len() ==> #[trigger] indices_where(n, p)[a]
                < #[trigger] indices_where(n, p)[b],
    decreases n,
{
    if n > 0 {
        lemma_indices_where_increasing(n - 1, p);
        lemma_indices_where_bounds(n - 1, p);
        let prev = indices_where(n - 1, p);
        if p(n - 1) {
            let cur = indices_where(n, p);
            assert(cur == prev.push(n - 1));
            assert forall|a: int, b: int| 0 <= a < b < cur.len() implies #[trigger] cur[a] < #[trigger] cur[b] by {
                assert(cur[a] == prev[a]);
                if b < prev.len() {
                    assert(cur[b] == prev[b]);
                }
            }
        }
    }
}

/// Every position listed by `indices_where` satisfies the predicate, and
/// every position in range that satisfies it is listed.
pub proof fn lemma_indices_where_members(n: int, p: spec_fn(int) -> bool)
    ensures
        forall|k: int| 0 <= k < indices_where(n, p).len() ==> p(#[trigger] indices_where(n, p)[k]),
        forall|j: int| 0 <= j < n && p(j) ==> #[trigger] indices_where(n, p).contains(j),
        forall|j: int| #[trigger] indices_where(n, p).contains(j) ==> 0 <= j < n && p(j),
    decreases n,
{
    lemma_indices_where_bounds(n, p);
    if n > 0 {
        lemma_indices_where_members(n - 1, p);
        let prev = indices_where(n - 1, p);
        if p(n - 1) {
            let cur = indices_where(n, p);
            assert(cur == prev.push(n - 1));
            assert forall|k: int| 0 <= k < cur.len() implies p(#[trigger] cur[k]) by {
                if k < prev.len() {
                    assert(cur[k] == prev[k]);
                }
            }
            assert forall|j: int| 0 <= j < n && p(j) implies #[trigger] cur.contains(j) by {
                if j < n - 1 {
                    assert(prev.contains(j));
                    let k = choose|k: int| 0 <= k < prev.len() && prev[k] == j;
                    assert(cur[k] == j);
                } else {
                    assert(cur[prev.len() as int] == j);
                }
            }
            assert forall|j: int| #[trigger] cur.contains(j) implies 0 <= j < n && p(j) by {
                let k = choose|k: int| 0 <= k < cur.len() && cur[k] == j;
                if k < prev.len() {
                    assert(cur[k] == prev[k]);
                    assert(prev.contains(j));
                }
            }
        }
    }
}

/// A predicate that holds at exactly one position in range lists that
/// position alone.
pub proof fn lemma_indices_where_single(n: int, p: spec_fn(int) -> bool, i: int)
    requires
        0 <= i < n,
        p(i),
        forall|k: int| 0 <= k < n && k != i ==> !#[trigger] p(k),
    ensures
        indices_where(n, p) == seq![i],
    decreases n,
{
    if n - 1 > i {
        lemma_indices_where_single(n - 1, p, i);
    } else {
        lemma_indices_where_none(n - 1, p);
        assert(indices_where(n, p) =~= seq![i]);
    }
}

/// A predicate that holds nowhere in range lists nothing.
pub proof fn lemma_indices_where_none(n: int, p: spec_fn(int) -> bool)
    requires
        forall|k: int| 0 <= k < n ==> !#[trigger] p(k),
    ensures
        indices_where(n, p) == Seq::<int>::empty(),
    decreases n,
{
    if n > 0 {
        lemma_indices_where_none(n - 1, p);
    }
}

/// An exact name wins: when a command is named `input` (its canonical name,
/// an alias or a spelling, ignoring case), the word resolves to the first
/// such command, whatever prefixes other commands share with it.
pub proof fn lemma_exact_name_wins(cmds: Seq<Command>, input: Seq<char>, i: int)
    requires
        0 <= i < cmds.len(),
        exact_match(cmds[i], lowercase(input)),
        forall|k: int| 0 <= k < i ==> !exact_match(#[trigger] cmds[k], lowercase(input)),
    ensures
        resolution(cmds, input) == Resolution::Found(i),
{
    let low = lowercase(input);
    assert forall|k: int| 0 <= k < i implies !#[trigger] exact_at(cmds, low)(k) by {
        assert(!exact_match(cmds[k], low));
    }
    lemma_first_where_at(0, cmds.len() as int, exact_at(cmds, low), i);
}

/// A word leads to a command only through that command's names: it equals
/// one of them (ignoring case), or, when it names no command exactly, it is
/// a prefix of the command's canonical name or of one of its aliases, never
/// of a spelling alone.
pub proof fn lemma_found_only_by_name(cmds: Seq<Command>, input: Seq<char>)
    ensures
        resolution(cmds, input) matches Resolution::Found(i) ==> 0 <= i < cmds.len() && (
        exact_match(cmds[i], lowercase(input)) || ((forall|k: int|
            0 <= k < cmds.len() ==> !exact_match(#[trigger] cmds[k], lowercase(input)))
            && prefix_match(cmds[i], lowercase(input)))),
{
    let low = lowercase(input);
    let n = cmds.len() as int;
    crate::model::lemma_first_where_spec(0, n, exact_at(cmds, low));
    lemma_indices_where_members(n, prefix_at(cmds, low));
    let e = first_where(0, n, exact_at(cmds, low));
    let pm = indices_where(n, prefix_at(cmds, low));
    if e >= n && pm.len() == 1 {
        assert(prefix_at(cmds, low)(pm[0]));
        assert(pm.contains(pm[0]));
        assert forall|k: int| 0 <= k < cmds.len() implies !exact_match(
            #[trigger] cmds[k],
            low,
        ) by {
            assert(!exact_at(cmds, low)(k));
        }
    }
}

/// A word that names no command exactly and is a prefix (of the canonical
/// name or an alias) of exactly one command resolves to that command.
pub proof fn lemma_unique_prefix_resolves(cmds: Seq<Command>, input: Seq<char>, i: int)
    requires
        0 <= i < cmds.len(),
        prefix_match(cmds[i], lowercase(input)),
        forall|k: int| 0 <= k < cmds.len() && k != i ==> !prefix_match(#[trigger] cmds[k], lowercase(input)),
        forall|k: int| 0 <= k < cmds.len() ==> !exact_match(#[trigger] cmds[k], lowercase(input)),
    ensures
        resolution(cmds, input) == Resolution::Found(i),
{
    let low = lowercase(input);
    let n = cmds.len() as int;
    assert forall|k: int| 0 <= k < n implies !#[trigger] exact_at(cmds, low)(k) by {
        assert(!exact_match(cmds[k], low));
    }
    lemma_first_where_none(0, n, exact_at(cmds, low));
    assert forall|k: int| 0 <= k < n && k != i implies !#[trigger] prefix_at(cmds, low)(k) by {
        assert(!prefix_match(cmds[k], low));
    }
    lemma_indices_where_single(n, prefix_at(cmds, low), i);
}

/// An ambiguous word lists at least two candidates, each the canonical name
/// of a command whose canonical name or an alias the word begins.
pub proof fn lemma_ambiguous_candidates(cmds: Seq<Command>, input: Seq<char>)
    ensures
        resolution(cmds, input) matches Resolution::Ambiguous(c) ==> c.len() >= 2 && forall|k: int|
            0 <= k < c.len() ==> exists|i: int|
                0 <= i < cmds.len() && prefix_match(cmds[i], lowercase(input)) && #[trigger] c[k]
                    == cmds[i].canonical@,
{
    let low = lowercase(input);
    let n = cmds.len() as int;
    lemma_indices_where_members(n, prefix_at(cmds, low));
    lemma_indices_where_bounds(n, prefix_at(cmds, low));
    let pm = indices_where(n, prefix_at(cmds, low));
    if resolution(cmds, input) is Ambiguous {
        let c = names_at(cmds, pm);
        assert forall|k: int| 0 <= k < c.len() implies exists|i: int|
            0 <= i < cmds.len() && prefix_match(cmds[i], low) && #[trigger] c[k]
                == cmds[i].canonical@ by {
            let i = pm[k];
            assert(prefix_at(cmds, low)(pm[k]));
            assert(c[k] == cmds[i].canonical@);
        }
    }
}

/// `name` is the canonical name of a command that is a near miss of `low`.
pub open spec fn near_name(cmds: Seq<Command>, low: Seq<char>, name: Seq<char>) -> bool {
    exists|i: int| 0 <= i < cmds.len() && near_miss(cmds[i], low) && name == cmds[i].canonical@
}

/// An unknown word comes with at most three suggestions, each the canonical
/// name of a near miss.
pub proof fn lemma_suggestions_are_near_misses(cmds: Seq<Command>, input: Seq<char>)
    ensures
        resolution(cmds, input) matches Resolution::Unknown(s) ==> s.len() <= 3 && forall|k: int|
            0 <= k < s.len() ==> near_name(cmds, lowercase(input), #[trigger] s[k]),
{
    let low = lowercase(input);
    let n = cmds.len() as int;
    lemma_indices_where_members(n, near_at(cmds, low));
    lemma_indices_where_bounds(n, near_at(cmds, low));
    let nm = indices_where(n, near_at(cmds, low));
    if resolution(cmds, input) is Unknown {
        let t = nm.take(if nm.len() < 3 { nm.len() as int } else { 3 });
        let s = names_at(cmds, t);
        assert(resolution(cmds, input) == Resolution::Unknown(s));
        assert forall|k: int| 0 <= k < s.len() implies near_name(cmds, low, #[trigger] s[k]) by {
            let i = nm[k];
            assert(t[k] == nm[k]);
            assert(near_at(cmds, low)(nm[k]));
            assert(s[k] == cmds[i].canonical@);
        }
    }
}

} // verus!
