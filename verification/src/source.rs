//! Layered command sources: commands contributed by several sources, each
//! tagged with a precedence layer, merged by canonical name into a registry
//! with diagnostics for every shadowed entry.
use vstd::prelude::*;
use crate::model::{first_where, lemma_first_where_at, lemma_first_where_none, Command};
use crate::query::Registry;
use crate::resolver::{indices_where, lemma_indices_where_bounds};
use crate::text::{append_to, decimal, i64_text, seq_lt, str_lt, views};

verus! {

broadcast use vstd::string::group_string_axioms;

/// The precedence layer of a source; a higher rank wins.
#[derive(Debug, Clone, Copy, PartialEq, Eq, Hash, Structural)]
pub enum Layer {
    /// Compiled into the binary (rank 0).
    Embedded,
    /// User-wide overrides (rank 100).
    User,
    /// Project-wide overrides (rank 200).
    Project,
    /// Per-invocation overrides (rank 300).
    Local,
    /// A custom rank.
    Custom(i32),
}

/// The rank of a layer.
pub open spec fn layer_rank(l: Layer) -> int {
    match l {
        Layer::Embedded => 0,
        Layer::User => 100,
        Layer::Project => 200,
        Layer::Local => 300,
        Layer::Custom(n) => n as int,
    }
}

/// The label of a layer: its lowercase name, or `custom(N)`.
pub open spec fn layer_label(l: Layer) -> Seq<char> {
    match l {
        Layer::Embedded => "embedded"@,
        Layer::User => "user"@,
        Layer::Project => "project"@,
        Layer::Local => "local"@,
        Layer::Custom(n) => "custom("@ + decimal(n as int) + ")"@,
    }
}

impl Layer {
    /// The numeric rank used for precedence; higher wins.
    pub fn rank(self) -> (r: i32)
        ensures
            r as int == layer_rank(self),
    {
        match self {
            Layer::Embedded => 0,
            Layer::User => 100,
            Layer::Project => 200,
            Layer::Local => 300,
            Layer::Custom(n) => n,
        }
    }

    /// The label: `embedded`, `user`, `project`, `local` or `custom(N)`.
    pub fn label(self) -> (r: String)
        ensures
            r@ == layer_label(self),
    {
        match self {
            Layer::Embedded => String::from_str("embedded"),
            Layer::User => String::from_str("user"),
            Layer::Project => String::from_str("project"),
            Layer::Local => String::from_str("local"),
            Layer::Custom(n) => {
                let mut s = String::from_str("custom(");
                append_to(&mut s, &i64_text(n as i64));
                s.append(")");
                s
            },
        }
    }
}

/// Where a loaded command came from.
#[derive(Debug, PartialEq, Eq)]
pub struct SourceOrigin {
    /// Name of the producing source.
    pub source: String,
    /// Layer the command was contributed under.
    pub layer: Layer,
    /// File path or other locator, for sources that have one.
    pub path: Option<String>,
}

impl SourceOrigin {
    /// A copy of this origin.
    pub fn copy(&self) -> (r: SourceOrigin)
        ensures
            r == *self,
    {
        SourceOrigin {
            source: self.source.clone(),
            layer: self.layer,
            path: match &self.path {
                Some(p) => Some(p.clone()),
                None => None,
            },
        }
    }
}

/// A command with what layering needs: a priority within its layer, an
/// optional override target, and its origin.
#[derive(Debug)]
pub struct LoadedCommand {
    /// The command.
    pub command: Command,
    /// Higher priority wins within a layer (default 0).
    pub priority: i32,
    /// Canonical name of a lower-rank command this entry means to shadow.
    pub overrides: Option<String>,
    /// Where the command came from.
    pub origin: SourceOrigin,
}

impl LoadedCommand {
    /// A loaded command with priority 0 and no override target.
    pub fn new(command: Command, origin: SourceOrigin) -> (r: Self)
        ensures
            r.command == command && r.origin == origin && r.priority == 0 && r.overrides is None,
    {
        LoadedCommand { command, priority: 0, overrides: None, origin }
    }

    /// Set the priority.
    pub fn with_priority(self, priority: i32) -> (r: Self)
        ensures
            r == (LoadedCommand { priority, ..self }),
    {
        LoadedCommand { priority, ..self }
    }

    /// Declare the canonical name this entry means to override.
    pub fn overriding(self, canonical: &str) -> (r: Self)
        ensures
            r.overrides matches Some(o) && o@ == canonical@,
            r.command == self.command && r.priority == self.priority && r.origin == self.origin,
    {
        LoadedCommand { overrides: Some(String::from_str(canonical)), ..self }
    }
}

/// A diagnostic produced while loading or merging.
#[derive(Debug, PartialEq, Eq)]
pub enum LoadDiagnostic {
    /// A command hidden by a higher-precedence one with the same canonical name.
    Shadowed { canonical: String, shadowed: SourceOrigin, winner: SourceOrigin },
    /// An override target that no lower-rank command has.
    OverrideTargetMissing { target: String, origin: SourceOrigin },
    /// A source-level error (a file that failed to load, a missing directory).
    SourceError { source: String, path: Option<String>, message: String },
    /// A malformed field; the source recovered.
    SchemaWarning { origin: SourceOrigin, field: String, message: String },
}

/// What one source produced.
#[derive(Debug)]
pub struct SourceLoad {
    /// The commands.
    pub commands: Vec<LoadedCommand>,
    /// Diagnostics emitted while loading.
    pub diagnostics: Vec<LoadDiagnostic>,
}

impl LoadDiagnostic {
    /// Whether this diagnostic is a hard error (a source error) rather than
    /// a warning.
    pub fn is_error(&self) -> (r: bool)
        ensures
            r == (*self is SourceError),
    {
        match self {
            LoadDiagnostic::SourceError { .. } => true,
            _ => false,
        }
    }
}

/// A [`SourceOrigin`] with its strings taken as character sequences.
pub struct OriginView {
    pub source: Seq<char>,
    pub layer: Layer,
    pub path: Option<Seq<char>>,
}

impl View for SourceOrigin {
    type V = OriginView;

    open spec fn view(&self) -> OriginView {
        OriginView {
            source: self.source@,
            layer: self.layer,
            path: match self.path {
                Some(p) => Some(p@),
                None => None,
            },
        }
    }
}

/// A [`LoadDiagnostic`] with its strings taken as character sequences.
pub enum DiagnosticView {
    Shadowed(Seq<char>, OriginView, OriginView),
    OverrideTargetMissing(Seq<char>, OriginView),
    SourceError(Seq<char>, Option<Seq<char>>, Seq<char>),
    SchemaWarning(OriginView, Seq<char>, Seq<char>),
}

impl View for LoadDiagnostic {
    type V = DiagnosticView;

    open spec fn view(&self) -> DiagnosticView {
        match self {
            LoadDiagnostic::Shadowed { canonical, shadowed, winner } => DiagnosticView::Shadowed(
                canonical@,
                shadowed@,
                winner@,
            ),
            LoadDiagnostic::OverrideTargetMissing { target, origin } => DiagnosticView::OverrideTargetMissing(
                target@,
                origin@,
            ),
            LoadDiagnostic::SourceError { source, path, message } => DiagnosticView::SourceError(
                source@,
                match path {
                    Some(p) => Some(p@),
                    None => None,
                },
                message@,
            ),
            LoadDiagnostic::SchemaWarning { origin, field, message } => DiagnosticView::SchemaWarning(
                origin@,
                field@,
                message@,
            ),
        }
    }
}

/// Views of a list of diagnostics.
pub open spec fn diagnostic_views(v: Seq<LoadDiagnostic>) -> Seq<DiagnosticView> {
    v.map_values(|d: LoadDiagnostic| d@)
}

/// `source[layer]:path`, with `<in-memory>` when there is no path.
pub open spec fn origin_text(o: SourceOrigin) -> Seq<char> {
    o.source@ + "["@ + layer_label(o.layer) + "]:"@ + match o.path {
        Some(p) => p@,
        None => "<in-memory>"@,
    }
}

/// The message of a diagnostic.
pub open spec fn diagnostic_text(d: LoadDiagnostic) -> Seq<char> {
    match d {
        LoadDiagnostic::Shadowed { canonical, shadowed, winner } => "command '"@ + canonical@
            + "' from "@ + origin_text(shadowed) + " shadowed by "@ + origin_text(winner),
        LoadDiagnostic::OverrideTargetMissing { target, origin } => origin_text(origin)
            + " declares overrides='"@ + target@
            + "' but no lower-layer command with that canonical name was loaded"@,
        LoadDiagnostic::SourceError { source, path, message } => "source '"@ + source@ + "' error"@
            + match path {
            Some(p) => " at "@ + p@,
            None => seq![],
        } + ": "@ + message@,
        LoadDiagnostic::SchemaWarning { origin, field, message } => origin_text(origin)
            + " field '"@ + field@ + "': "@ + message@,
    }
}

fn origin_text_exec(o: &SourceOrigin) -> (r: String)
    ensures
        r@ == origin_text(*o),
{
    let mut s = o.source.clone();
    s.append("[");
    append_to(&mut s, &o.layer.label());
    s.append("]:");
    match &o.path {
        Some(p) => append_to(&mut s, p),
        None => s.append("<in-memory>"),
    }
    s
}

impl LoadDiagnostic {
    /// The human-readable message, e.g.
    /// `command 'deploy' from builtin[embedded]:<in-memory> shadowed by user[user]:<in-memory>`.
    pub fn message(&self) -> (r: String)
        ensures
            r@ == diagnostic_text(*self),
    {
        match self {
            LoadDiagnostic::Shadowed { canonical, shadowed, winner } => {
                let mut s = String::from_str("command '");
                append_to(&mut s, canonical);
                s.append("' from ");
                append_to(&mut s, &origin_text_exec(shadowed));
                s.append(" shadowed by ");
                append_to(&mut s, &origin_text_exec(winner));
                s
            },
            LoadDiagnostic::OverrideTargetMissing { target, origin } => {
                let mut s = origin_text_exec(origin);
                s.append(" declares overrides='");
                append_to(&mut s, target);
                s.append("' but no lower-layer command with that canonical name was loaded");
                s
            },
            LoadDiagnostic::SourceError { source, path, message } => {
                let mut s = String::from_str("source '");
                append_to(&mut s, source);
                s.append("' error");
                match path {
                    Some(p) => {
                        s.append(" at ");
                        append_to(&mut s, p);
                    },
                    None => {},
                }
                s.append(": ");
                append_to(&mut s, message);
                s
            },
            LoadDiagnostic::SchemaWarning { origin, field, message } => {
                let mut s = origin_text_exec(origin);
                s.append(" field '");
                append_to(&mut s, field);
                s.append("': ");
                append_to(&mut s, message);
                s
            },
        }
    }
}

// ── Merging ─────────────────────────────────────────────────────────────────

/// The commands of all sources in order, each with its source's index.
pub open spec fn flat_entries(loads: Seq<SourceLoad>) -> Seq<(int, LoadedCommand)>
    decreases loads.len(),
{
    if loads.len() == 0 {
        seq![]
    } else {
        flat_entries(loads.drop_last()) + loads.last().commands@.map_values(
            |lc: LoadedCommand| ((loads.len() - 1) as int, lc),
        )
    }
}

/// The diagnostics of all sources in order.
pub open spec fn flat_diagnostics(loads: Seq<SourceLoad>) -> Seq<LoadDiagnostic>
    decreases loads.len(),
{
    if loads.len() == 0 {
        seq![]
    } else {
        flat_diagnostics(loads.drop_last()) + loads.last().diagnostics@
    }
}

/// The canonical name of entry `p`.
pub open spec fn canonical_at(e: Seq<(int, LoadedCommand)>, p: int) -> Seq<char> {
    e[p].1.command.canonical@
}

/// Entry `p` has lower precedence than entry `q`: by layer rank, then
/// priority, then source index, then position.
pub open spec fn entry_below(e: Seq<(int, LoadedCommand)>, p: int, q: int) -> bool {
    let rp = layer_rank(e[p].1.origin.layer);
    let rq = layer_rank(e[q].1.origin.layer);
    rp < rq || (rp == rq && (e[p].1.priority < e[q].1.priority || (e[p].1.priority
        == e[q].1.priority && (e[p].0 < e[q].0 || (e[p].0 == e[q].0 && p < q)))))
}

/// The distinct canonical names of the first `n` entries, in order of first
/// appearance.
pub open spec fn distinct_names(e: Seq<(int, LoadedCommand)>, n: int) -> Seq<Seq<char>>
    decreases n,
{
    if n <= 0 {
        seq![]
    } else {
        let d = distinct_names(e, n - 1);
        if d.contains(canonical_at(e, n - 1)) {
            d
        } else {
            d.push(canonical_at(e, n - 1))
        }
    }
}

pub open spec fn name_after(s: Seq<Seq<char>>, x: Seq<char>) -> spec_fn(int) -> bool {
    |i: int| seq_lt(x, s[i])
}

/// The names in ascending order (an insertion sort).
pub open spec fn sort_names(s: Seq<Seq<char>>) -> Seq<Seq<char>>
    decreases s.len(),
{
    if s.len() == 0 {
        seq![]
    } else {
        let t = sort_names(s.drop_last());
        t.insert(first_where(0, t.len() as int, name_after(t, s.last())), s.last())
    }
}

/// The canonical names in the order the merge handles them: ascending.
pub open spec fn group_order(e: Seq<(int, LoadedCommand)>) -> Seq<Seq<char>> {
    sort_names(distinct_names(e, e.len() as int))
}

pub open spec fn in_group(e: Seq<(int, LoadedCommand)>, g: Seq<char>) -> spec_fn(int) -> bool {
    |p: int| canonical_at(e, p) == g
}

pub open spec fn entry_after(e: Seq<(int, LoadedCommand)>, p: int, s: Seq<int>) -> spec_fn(int) -> bool {
    |i: int| entry_below(e, p, s[i])
}

/// The positions `s` in ascending precedence (an insertion sort).
pub open spec fn rank_entries(e: Seq<(int, LoadedCommand)>, s: Seq<int>) -> Seq<int>
    decreases s.len(),
{
    if s.len() == 0 {
        seq![]
    } else {
        let t = rank_entries(e, s.drop_last());
        t.insert(first_where(0, t.len() as int, entry_after(e, s.last(), t)), s.last())
    }
}

/// The entries named `g`, lowest precedence first.
pub open spec fn ranked_group(e: Seq<(int, LoadedCommand)>, g: Seq<char>) -> Seq<int> {
    rank_entries(e, indices_where(e.len() as int, in_group(e, g)))
}

/// The entry that wins for the name `g`: the one of highest precedence.
pub open spec fn winner(e: Seq<(int, LoadedCommand)>, g: Seq<char>) -> int {
    ranked_group(e, g).last()
}

/// One `Shadowed` diagnostic per losing entry of `g`, lowest precedence first.
pub open spec fn shadow_diags(e: Seq<(int, LoadedCommand)>, g: Seq<char>) -> Seq<LoadDiagnostic> {
    let w = winner(e, g);
    ranked_group(e, g).drop_last().map_values(
        |q: int|
            LoadDiagnostic::Shadowed {
                canonical: e[w].1.command.canonical,
                shadowed: e[q].1.origin,
                winner: e[w].1.origin,
            },
    )
}

/// The shadow diagnostics of the groups `gs`, in order.
pub open spec fn all_shadow_diags(e: Seq<(int, LoadedCommand)>, gs: Seq<Seq<char>>) -> Seq<
    LoadDiagnostic,
>
    decreases gs.len(),
{
    if gs.len() == 0 {
        seq![]
    } else {
        all_shadow_diags(e, gs.drop_last()) + shadow_diags(e, gs.last())
    }
}

/// The winning entry `w` names an override target that no entry of strictly
/// lower rank has as its canonical name.
pub open spec fn override_missing(e: Seq<(int, LoadedCommand)>, w: int) -> bool {
    e[w].1.overrides is Some && !exists|p: int|
        0 <= p < e.len() && canonical_at(e, p) == e[w].1.overrides.unwrap()@ && layer_rank(
            e[p].1.origin.layer,
        ) < layer_rank(e[w].1.origin.layer)
}

/// The `OverrideTargetMissing` diagnostics of the winners of `gs`, in order.
pub open spec fn override_diags(e: Seq<(int, LoadedCommand)>, gs: Seq<Seq<char>>) -> Seq<
    LoadDiagnostic,
>
    decreases gs.len(),
{
    if gs.len() == 0 {
        seq![]
    } else {
        let w = winner(e, gs.last());
        override_diags(e, gs.drop_last()) + if override_missing(e, w) {
            seq![
                LoadDiagnostic::OverrideTargetMissing {
                    target: e[w].1.overrides.unwrap(),
                    origin: e[w].1.origin,
                },
            ]
        } else {
            seq![]
        }
    }
}

/// The commands of a merge: one winner per canonical name, by name.
pub open spec fn merged_commands(e: Seq<(int, LoadedCommand)>) -> Seq<Command> {
    group_order(e).map_values(|g: Seq<char>| e[winner(e, g)].1.command)
}

/// The diagnostics of a merge: the sources' own, then the shadowed entries,
/// then the unsatisfied override targets.
pub open spec fn merged_diagnostics(loads: Seq<SourceLoad>) -> Seq<LoadDiagnostic> {
    let e = flat_entries(loads);
    flat_diagnostics(loads) + all_shadow_diags(e, group_order(e)) + override_diags(
        e,
        group_order(e),
    )
}

/// The elements of `v`, each wrapped in `Some`.
fn options_of<T>(v: Vec<T>) -> (r: Vec<Option<T>>)
    ensures
        r@.len() == v@.len(),
        forall|i: int| 0 <= i < r@.len() ==> r@[i] == Some(v@[i]),
{
    let ghost orig = v@;
    let n = v.len();
    let mut out: Vec<Option<T>> = Vec::new();
    let mut k: usize = 0;
    while k < n
        invariant
            k <= n,
            out@.len() == k,
            forall|i: int| 0 <= i < k ==> out@[i] is None,
        decreases n - k,
    {
        out.push(None);
        k = k + 1;
    }
    let mut v = v;
    while v.len() > 0
        invariant
            v@.len() <= n,
            n == orig.len(),
            out@.len() == n,
            v@ == orig.take(v@.len() as int),
            forall|i: int| 0 <= i < v@.len() ==> out@[i] is None,
            forall|i: int| v@.len() <= i < n ==> out@[i] == Some(orig[i]),
        decreases v@.len(),
    {
        let ghost before = v@;
        let x = v.pop().unwrap();
        let i = v.len();
        proof {
            assert(x == orig[i as int]);
            assert(v@ =~= orig.take(i as int));
        }
        out.set(i, Some(x));
    }
    out
}

/// Entries with their source indices as integers.
pub open spec fn entry_view(v: Seq<(usize, LoadedCommand)>) -> Seq<(int, LoadedCommand)> {
    v.map_values(|x: (usize, LoadedCommand)| (x.0 as int, x.1))
}

/// Positions as integers.
pub open spec fn ints(v: Seq<usize>) -> Seq<int> {
    v.map_values(|x: usize| x as int)
}

/// Every source's commands (tagged with the source's index) and
/// diagnostics, in order.
fn flatten(loads: Vec<SourceLoad>) -> (r: (Vec<(usize, LoadedCommand)>, Vec<LoadDiagnostic>))
    ensures
        entry_view(r.0@) == flat_entries(loads@),
        r.1@ == flat_diagnostics(loads@),
{
    let ghost orig = loads@;
    let n = loads.len();
    let mut slots = options_of(loads);
    let mut entries: Vec<(usize, LoadedCommand)> = Vec::new();
    let mut diags: Vec<LoadDiagnostic> = Vec::new();
    let mut s: usize = 0;
    while s < n
        invariant
            s <= n,
            n == orig.len(),
            slots@.len() == n,
            forall|i: int| s <= i < n ==> slots@[i] == Some(orig[i]),
            entries@.len() == flat_entries(orig.take(s as int)).len(),
            forall|i: int|
                0 <= i < entries@.len() ==> (entries@[i].0 as int, entries@[i].1) == #[trigger] flat_entries(orig.take(s as int))[i],
            diags@ == flat_diagnostics(orig.take(s as int)),
        decreases n - s,
    {
        let load = slots[s].take().unwrap();
        proof {
            assert(orig.take(s + 1).drop_last() =~= orig.take(s as int));
            assert(orig.take(s + 1).last() == load);
        }
        let SourceLoad { commands, diagnostics } = load;
        let mut ds = diagnostics;
        let ghost dprev = diags@;
        let ghost dsv = ds@;
        diags.append(&mut ds);
        let ghost eprev = entries@;
        let m = commands.len();
        let ghost cv = commands@;
        let mut cslots = options_of(commands);
        let mut j: usize = 0;
        while j < m
            invariant
                j <= m,
                m == cv.len(),
                cslots@.len() == m,
                forall|i: int| j <= i < m ==> cslots@[i] == Some(cv[i]),
                entries@.len() == eprev.len() + j,
                forall|i: int| 0 <= i < eprev.len() ==> entries@[i] == eprev[i],
                forall|i: int| 0 <= i < j ==> entries@[eprev.len() + i] == (s, cv[i]),
            decreases m - j,
        {
            let lc = cslots[j].take().unwrap();
            entries.push((s, lc));
            j = j + 1;
        }
        proof {
            let fl = flat_entries(orig.take(s + 1));
            assert(fl == flat_entries(orig.take(s as int)) + cv.map_values(|lc: LoadedCommand| (s as int, lc)));
            assert forall|i: int| 0 <= i < entries@.len() implies (entries@[i].0 as int, entries@[i].1) == #[trigger] fl[i] by {
                if i < eprev.len() {
                    assert(fl[i] == flat_entries(orig.take(s as int))[i]);
                } else {
                    assert(fl[i] == (s as int, cv[i - eprev.len()]));
                }
            }
            assert(diags@ =~= dprev + dsv);
        }
        s = s + 1;
    }
    proof {
        assert(orig.take(n as int) =~= orig);
        assert(entry_view(entries@) =~= flat_entries(orig));
    }
    (entries, diags)
}

/// The distinct canonical names, in order of first appearance.
fn distinct_names_exec(entries: &Vec<(usize, LoadedCommand)>) -> (r: Vec<String>)
    ensures
        views(r@) == distinct_names(entry_view(entries@), entries@.len() as int),
{
    let ghost e = entry_view(entries@);
    let mut names: Vec<String> = Vec::new();
    let mut p: usize = 0;
    while p < entries.len()
        invariant
            p <= entries@.len(),
            e == entry_view(entries@),
            views(names@) == distinct_names(e, p as int),
        decreases entries.len() - p,
    {
        let name = &entries[p].1.command.canonical;
        proof {
            assert(canonical_at(e, p as int) == name@);
        }
        let mut k: usize = 0;
        let mut found = false;
        while k < names.len()
            invariant
                k <= names@.len(),
                found ==> views(names@).contains(name@),
                !found ==> forall|m: int| 0 <= m < k ==> views(names@)[m] != name@,
            decreases names.len() - k,
        {
            if names[k] == *name {
                proof {
                    assert(views(names@)[k as int] == name@);
                }
                found = true;
            }
            k = k + 1;
        }
        if !found {
            let ghost prev = names@;
            names.push(name.clone());
            proof {
                assert(views(names@) =~= views(prev).push(name@));
            }
        }
        p = p + 1;
    }
    names
}

/// The names in ascending order.
fn sort_names_exec(names: &Vec<String>) -> (r: Vec<String>)
    ensures
        views(r@) == sort_names(views(names@)),
{
    let mut out: Vec<String> = Vec::new();
    let mut k: usize = 0;
    while k < names.len()
        invariant
            k <= names@.len(),
            views(out@) == sort_names(views(names@).take(k as int)),
        decreases names.len() - k,
    {
        let x = names[k].clone();
        let ghost t = views(out@);
        let mut p: usize = 0;
        while p < out.len() && !str_lt(x.as_str(), out[p].as_str())
            invariant
                p <= out@.len(),
                t == views(out@),
                forall|m: int| 0 <= m < p ==> !(#[trigger] name_after(t, x@)(m)),
            decreases out.len() - p,
        {
            p = p + 1;
        }
        proof {
            if p < out@.len() {
                lemma_first_where_at(0, t.len() as int, name_after(t, x@), p as int);
            } else {
                lemma_first_where_none(0, t.len() as int, name_after(t, x@));
            }
        }
        let ghost xv = x@;
        out.insert(p, x);
        proof {
            let s2 = views(names@).take(k + 1);
            assert(s2.drop_last() =~= views(names@).take(k as int));
            assert(s2.last() == xv);
            assert(views(out@) =~= t.insert(p as int, xv));
        }
        k = k + 1;
    }
    proof {
        assert(views(names@).take(names@.len() as int) =~= views(names@));
    }
    out
}

/// The positions of the entries named `g`.
fn group_positions(entries: &Vec<(usize, LoadedCommand)>, g: &String) -> (r: Vec<usize>)
    ensures
        ints(r@) == indices_where(entries@.len() as int, in_group(entry_view(entries@), g@)),
        forall|i: int| 0 <= i < r@.len() ==> r@[i] < entries@.len(),
{
    let ghost e = entry_view(entries@);
    let mut out: Vec<usize> = Vec::new();
    let mut p: usize = 0;
    while p < entries.len()
        invariant
            p <= entries@.len(),
            e == entry_view(entries@),
            ints(out@) == indices_where(p as int, in_group(e, g@)),
            forall|i: int| 0 <= i < out@.len() ==> out@[i] < p,
        decreases entries.len() - p,
    {
        let ghost prev = out@;
        proof {
            assert(canonical_at(e, p as int) == entries@[p as int].1.command.canonical@);
        }
        if entries[p].1.command.canonical == *g {
            out.push(p);
            proof {
                assert(ints(out@) =~= ints(prev).push(p as int));
            }
        }
        p = p + 1;
    }
    out
}

/// Whether entry `p` has lower precedence than entry `q`.
fn below(entries: &Vec<(usize, LoadedCommand)>, p: usize, q: usize) -> (r: bool)
    requires
        p < entries@.len(),
        q < entries@.len(),
    ensures
        r == entry_below(entry_view(entries@), p as int, q as int),
{
    let a = &entries[p];
    let b = &entries[q];
    let ra = a.1.origin.layer.rank();
    let rb = b.1.origin.layer.rank();
    ra < rb || (ra == rb && (a.1.priority < b.1.priority || (a.1.priority == b.1.priority && (a.0
        < b.0 || (a.0 == b.0 && p < q)))))
}

/// The positions in ascending precedence.
fn rank_positions(entries: &Vec<(usize, LoadedCommand)>, pos: &Vec<usize>) -> (r: Vec<usize>)
    requires
        forall|i: int| 0 <= i < pos@.len() ==> pos@[i] < entries@.len(),
    ensures
        ints(r@) == rank_entries(entry_view(entries@), ints(pos@)),
        r@.len() == pos@.len(),
        forall|i: int| 0 <= i < r@.len() ==> r@[i] < entries@.len(),
{
    let ghost e = entry_view(entries@);
    let mut out: Vec<usize> = Vec::new();
    let mut k: usize = 0;
    while k < pos.len()
        invariant
            k <= pos@.len(),
            e == entry_view(entries@),
            forall|i: int| 0 <= i < pos@.len() ==> pos@[i] < entries@.len(),
            ints(out@) == rank_entries(e, ints(pos@).take(k as int)),
            out@.len() == k,
            forall|i: int| 0 <= i < out@.len() ==> out@[i] < entries@.len(),
        decreases pos.len() - k,
    {
        let x = pos[k];
        let ghost t = ints(out@);
        let mut p: usize = 0;
        while p < out.len() && !below(entries, x, out[p])
            invariant
                p <= out@.len(),
                t == ints(out@),
                x < entries@.len(),
                e == entry_view(entries@),
                forall|i: int| 0 <= i < out@.len() ==> out@[i] < entries@.len(),
                forall|m: int| 0 <= m < p ==> !(#[trigger] entry_after(e, x as int, t)(m)),
            decreases out.len() - p,
        {
            proof {
                assert(t[p as int] == out@[p as int] as int);
            }
            p = p + 1;
        }
        proof {
            if p < out@.len() {
                assert(t[p as int] == out@[p as int] as int);
                lemma_first_where_at(0, t.len() as int, entry_after(e, x as int, t), p as int);
            } else {
                lemma_first_where_none(0, t.len() as int, entry_after(e, x as int, t));
            }
            crate::model::lemma_first_where_spec(0, t.len() as int, entry_after(e, x as int, t));
        }
        out.insert(p, x);
        proof {
            let s2 = ints(pos@).take(k + 1);
            assert(s2.drop_last() =~= ints(pos@).take(k as int));
            assert(s2.last() == x as int);
            assert(ints(out@) =~= t.insert(p as int, x as int));
        }
        k = k + 1;
    }
    proof {
        assert(ints(pos@).take(pos@.len() as int) =~= ints(pos@));
    }
    out
}

// ── Facts used by the merge ─────────────────────────────────────────────────

/// No element of `s` occurs twice.
pub open spec fn no_dups<A>(s: Seq<A>) -> bool {
    forall|i: int, j: int| 0 <= i < j < s.len() ==> s[i] != s[j]
}

proof fn lemma_distinct_names(e: Seq<(int, LoadedCommand)>, n: int)
    requires
        0 <= n <= e.len(),
    ensures
        no_dups(distinct_names(e, n)),
        forall|i: int|
            0 <= i < distinct_names(e, n).len() ==> exists|p: int|
                0 <= p < n && canonical_at(e, p) == #[trigger] distinct_names(e, n)[i],
    decreases n,
{
    if n > 0 {
        lemma_distinct_names(e, n - 1);
        let d = distinct_names(e, n - 1);
        if !d.contains(canonical_at(e, n - 1)) {
            let r = d.push(canonical_at(e, n - 1));
            assert forall|i: int| 0 <= i < r.len() implies exists|p: int|
                0 <= p < n && canonical_at(e, p) == #[trigger] r[i] by {
                if i < d.len() {
                    let p = choose|p: int| 0 <= p < n - 1 && canonical_at(e, p) == d[i];
                    assert(0 <= p < n && canonical_at(e, p) == r[i]);
                } else {
                    assert(canonical_at(e, n - 1) == r[i]);
                }
            }
            assert forall|i: int, j: int| 0 <= i < j < r.len() implies r[i] != r[j] by {
                if j == d.len() {
                    assert(d[i] == r[i]);
                }
            }
        }
    }
}

proof fn lemma_sort_names(s: Seq<Seq<char>>)
    ensures
        sort_names(s).len() == s.len(),
        forall|i: int| 0 <= i < sort_names(s).len() ==> s.contains(#[trigger] sort_names(s)[i]),
        no_dups(s) ==> no_dups(sort_names(s)),
    decreases s.len(),
{
    if s.len() > 0 {
        let t = sort_names(s.drop_last());
        lemma_sort_names(s.drop_last());
        let x = s.last();
        let pos = first_where(0, t.len() as int, name_after(t, x));
        crate::model::lemma_first_where_spec(0, t.len() as int, name_after(t, x));
        let r = t.insert(pos, x);
        assert forall|i: int| 0 <= i < r.len() implies s.contains(#[trigger] r[i]) by {
            if i < pos {
                assert(s.drop_last().contains(t[i]));
                let k = choose|k: int| 0 <= k < s.drop_last().len() && s.drop_last()[k] == t[i];
                assert(s[k] == r[i]);
            } else if i == pos {
                assert(s[s.len() - 1] == r[i]);
            } else {
                assert(r[i] == t[i - 1]);
                assert(s.drop_last().contains(t[i - 1]));
                let k = choose|k: int| 0 <= k < s.drop_last().len() && s.drop_last()[k] == t[i - 1];
                assert(s[k] == r[i]);
            }
        }
        if no_dups(s) {
            assert(no_dups(s.drop_last())) by {
                assert forall|i: int, j: int| 0 <= i < j < s.drop_last().len() implies s.drop_last()[i] != s.drop_last()[j] by {
                    assert(s.drop_last()[i] == s[i]);
                    assert(s.drop_last()[j] == s[j]);
                }
            }
            assert(!t.contains(x)) by {
                if t.contains(x) {
                    let k = choose|k: int| 0 <= k < t.len() && t[k] == x;
                    assert(s.drop_last().contains(t[k]));
                    let m = choose|m: int| 0 <= m < s.drop_last().len() && s.drop_last()[m] == t[k];
                    assert(s[m] == s[s.len() - 1]);
                }
            }
            assert forall|i: int, j: int| 0 <= i < j < r.len() implies r[i] != r[j] by {
                if i < pos && j < pos {
                } else if i < pos && j == pos {
                    assert(t.contains(r[i]));
                } else if i < pos {
                    assert(r[j] == t[j - 1]);
                } else if i == pos {
                    assert(r[j] == t[j - 1]);
                    assert(t.contains(r[j]));
                } else {
                    assert(r[i] == t[i - 1]);
                    assert(r[j] == t[j - 1]);
                }
            }
        }
    }
}

proof fn lemma_rank_entries(e: Seq<(int, LoadedCommand)>, s: Seq<int>)
    ensures
        rank_entries(e, s).len() == s.len(),
        forall|i: int| 0 <= i < rank_entries(e, s).len() ==> s.contains(#[trigger] rank_entries(e, s)[i]),
    decreases s.len(),
{
    if s.len() > 0 {
        let t = rank_entries(e, s.drop_last());
        lemma_rank_entries(e, s.drop_last());
        let x = s.last();
        let pos = first_where(0, t.len() as int, entry_after(e, x, t));
        crate::model::lemma_first_where_spec(0, t.len() as int, entry_after(e, x, t));
        let r = t.insert(pos, x);
        assert forall|i: int| 0 <= i < r.len() implies s.contains(#[trigger] r[i]) by {
            if i == pos {
                assert(s[s.len() - 1] == r[i]);
            } else {
                let ti = if i < pos { i } else { i - 1 };
                assert(r[i] == t[ti]);
                assert(s.drop_last().contains(t[ti]));
                let k = choose|k: int| 0 <= k < s.drop_last().len() && s.drop_last()[k] == t[ti];
                assert(s[k] == r[i]);
            }
        }
    }
}

proof fn lemma_indices_where_members(n: int, p: spec_fn(int) -> bool)
    ensures
        forall|k: int|
            0 <= k < indices_where(n, p).len() ==> 0 <= #[trigger] indices_where(n, p)[k] < n && p(
                indices_where(n, p)[k],
            ),
        forall|q: int| 0 <= q < n && #[trigger] p(q) ==> indices_where(n, p).len() > 0,
    decreases n,
{
    if n > 0 {
        lemma_indices_where_members(n - 1, p);
        let prev = indices_where(n - 1, p);
        if p(n - 1) {
            assert(indices_where(n, p) == prev.push(n - 1));
            assert forall|k: int| 0 <= k < indices_where(n, p).len() implies 0
                <= #[trigger] indices_where(n, p)[k] < n && p(indices_where(n, p)[k]) by {
                if k < prev.len() {
                    assert(indices_where(n, p)[k] == prev[k]);
                }
            }
        }
    }
}

/// Every group the merge handles has a winner, named after the group, and
/// distinct groups have distinct winners.
proof fn lemma_winners(e: Seq<(int, LoadedCommand)>)
    ensures
        no_dups(group_order(e)),
        forall|i: int|
            0 <= i < group_order(e).len() ==> ranked_group(e, #[trigger] group_order(e)[i]).len() > 0,
        forall|i: int|
            0 <= i < group_order(e).len() ==> 0 <= winner(e, #[trigger] group_order(e)[i]) < e.len()
                && canonical_at(e, winner(e, group_order(e)[i])) == group_order(e)[i],
{
    lemma_distinct_names(e, e.len() as int);
    lemma_sort_names(distinct_names(e, e.len() as int));
    let gs = group_order(e);
    assert forall|i: int| 0 <= i < gs.len() implies ranked_group(e, #[trigger] gs[i]).len() > 0
        && 0 <= winner(e, gs[i]) < e.len() && canonical_at(e, winner(e, gs[i])) == gs[i] by {
        let g = gs[i];
        let d = distinct_names(e, e.len() as int);
        assert(d.contains(g));
        let k = choose|k: int| 0 <= k < d.len() && d[k] == g;
        let p = choose|p: int| 0 <= p < e.len() && canonical_at(e, p) == d[k];
        lemma_indices_where_members(e.len() as int, in_group(e, g));
        assert(in_group(e, g)(p));
        let pos = indices_where(e.len() as int, in_group(e, g));
        lemma_rank_entries(e, pos);
        let r = rank_entries(e, pos);
        assert(r.len() > 0);
        assert(pos.contains(r[r.len() - 1]));
        let m = choose|m: int| 0 <= m < pos.len() && pos[m] == r[r.len() - 1];
        assert(in_group(e, g)(pos[m]));
    }
}

/// Precedence between entries is a strict total order on positions.
proof fn lemma_entry_below_order(e: Seq<(int, LoadedCommand)>)
    ensures
        forall|p: int, q: int| #[trigger] entry_below(e, p, q) ==> !entry_below(e, q, p),
        forall|p: int, q: int| p != q ==> #[trigger] entry_below(e, p, q) || entry_below(e, q, p),
        forall|p: int, q: int, r: int|
            #[trigger] entry_below(e, p, q) && #[trigger] entry_below(e, q, r) ==> entry_below(e, p, r),
{
}

/// Ranking keeps every position and, positions being distinct, lists them
/// in strictly ascending precedence.
proof fn lemma_rank_sorted(e: Seq<(int, LoadedCommand)>, s: Seq<int>)
    requires
        no_dups(s),
    ensures
        forall|x: int| s.contains(x) ==> #[trigger] rank_entries(e, s).contains(x),
        forall|a: int, b: int|
            0 <= a < b < rank_entries(e, s).len() ==> entry_below(
                e,
                #[trigger] rank_entries(e, s)[a],
                #[trigger] rank_entries(e, s)[b],
            ),
    decreases s.len(),
{
    lemma_entry_below_order(e);
    lemma_rank_entries(e, s);
    if s.len() > 0 {
        let sd = s.drop_last();
        assert(no_dups(sd)) by {
            assert forall|i: int, j: int| 0 <= i < j < sd.len() implies sd[i] != sd[j] by {
                assert(sd[i] == s[i] && sd[j] == s[j]);
            }
        }
        lemma_rank_sorted(e, sd);
        lemma_rank_entries(e, sd);
        let t = rank_entries(e, sd);
        let x = s.last();
        let pos = first_where(0, t.len() as int, entry_after(e, x, t));
        crate::model::lemma_first_where_spec(0, t.len() as int, entry_after(e, x, t));
        let r = t.insert(pos, x);
        assert(rank_entries(e, s) == r);
        assert forall|k: int| 0 <= k < t.len() implies t[k] != x by {
            assert(sd.contains(t[k]));
            let m = choose|m: int| 0 <= m < sd.len() && sd[m] == t[k];
            assert(s[m] == sd[m]);
        }
        assert forall|y: int| s.contains(y) implies #[trigger] r.contains(y) by {
            let m = choose|m: int| 0 <= m < s.len() && s[m] == y;
            if m == s.len() - 1 {
                assert(r[pos] == y);
            } else {
                assert(sd[m] == y);
                assert(sd.contains(y));
                assert(t.contains(y));
                let k = choose|k: int| 0 <= k < t.len() && t[k] == y;
                if k < pos {
                    assert(r[k] == y);
                } else {
                    assert(r[k + 1] == y);
                }
            }
        }
        assert forall|a: int, b: int| 0 <= a < b < r.len() implies entry_below(
            e,
            #[trigger] r[a],
            #[trigger] r[b],
        ) by {
            if a == pos {
                assert(r[b] == t[b - 1]);
                assert(entry_after(e, x, t)(pos));
                if b - 1 > pos {
                    assert(entry_below(e, t[pos], t[b - 1]));
                }
            } else if b == pos {
                assert(r[a] == t[a]);
                assert(!entry_after(e, x, t)(a));
                assert(t[a] != x);
            } else {
                let ta = if a < pos { a } else { a - 1 };
                let tb = if b < pos { b } else { b - 1 };
                assert(r[a] == t[ta]);
                assert(r[b] == t[tb]);
            }
        }
    }
}

/// Higher precedence wins: each command of a merge is the command of one
/// loaded entry with its canonical name, and every other loaded entry with
/// that name has lower precedence (a lower layer rank, or the same rank
/// and a lower priority, or the same priority and an earlier source, or
/// the same source and an earlier position).
pub proof fn lemma_merge_precedence(loads: Seq<SourceLoad>)
    ensures
        ({
            let e = flat_entries(loads);
            let m = merged_commands(e);
            forall|i: int| 0 <= i < m.len() ==> exists|w: int|
                0 <= w < e.len() && #[trigger] m[i] == e[w].1.command && forall|p: int|
                    0 <= p < e.len() && canonical_at(e, p) == m[i].canonical@ ==> p == w
                        || entry_below(e, p, w)
        }),
{
    let e = flat_entries(loads);
    let m = merged_commands(e);
    let gs = group_order(e);
    lemma_winners(e);
    assert forall|i: int| 0 <= i < m.len() implies exists|w: int|
        0 <= w < e.len() && #[trigger] m[i] == e[w].1.command && forall|p: int|
            0 <= p < e.len() && canonical_at(e, p) == m[i].canonical@ ==> p == w || entry_below(e, p, w) by {
        let g = gs[i];
        let w = winner(e, g);
        assert(m[i] == e[w].1.command);
        assert(canonical_at(e, w) == g);
        let n = e.len() as int;
        let pos = indices_where(n, in_group(e, g));
        crate::resolver::lemma_indices_where_increasing(n, in_group(e, g));
        crate::resolver::lemma_indices_where_members(n, in_group(e, g));
        assert(no_dups(pos)) by {
            assert forall|a: int, b: int| 0 <= a < b < pos.len() implies pos[a] != pos[b] by {
                assert(pos[a] < pos[b]);
            }
        }
        lemma_rank_sorted(e, pos);
        lemma_rank_entries(e, pos);
        let r = rank_entries(e, pos);
        assert forall|p: int| 0 <= p < e.len() && canonical_at(e, p) == m[i].canonical@ implies p == w
            || entry_below(e, p, w) by {
            assert(in_group(e, g)(p));
            assert(pos.contains(p));
            assert(r.contains(p));
            let k = choose|k: int| 0 <= k < r.len() && r[k] == p;
            if k < r.len() - 1 {
                assert(entry_below(e, r[k], r[r.len() - 1]));
            }
        }
    }
}

/// A merge lists each loaded canonical name exactly once: every command it
/// keeps has a name some entry has, every entry's name is kept, and no name
/// is kept twice.
pub proof fn lemma_merge_names(loads: Seq<SourceLoad>)
    ensures
        ({
            let e = flat_entries(loads);
            let m = merged_commands(e);
            &&& forall|p: int| #![trigger canonical_at(e, p)] 0 <= p < e.len() ==> exists|i: int|
                0 <= i < m.len() && #[trigger] m[i].canonical@ == canonical_at(e, p)
            &&& forall|i: int, j: int| 0 <= i < j < m.len() ==> #[trigger] m[i].canonical@ != #[trigger] m[j].canonical@
        }),
{
    let e = flat_entries(loads);
    let m = merged_commands(e);
    let gs = group_order(e);
    lemma_winners(e);
    lemma_distinct_names(e, e.len() as int);
    lemma_distinct_names_cover(e, e.len() as int);
    lemma_sort_names_keeps(distinct_names(e, e.len() as int));
    assert forall|i: int| 0 <= i < m.len() implies #[trigger] m[i].canonical@ == gs[i] by {
        assert(canonical_at(e, winner(e, gs[i])) == gs[i]);
    }
    assert forall|p: int| #![trigger canonical_at(e, p)] 0 <= p < e.len() implies exists|i: int|
        0 <= i < m.len() && #[trigger] m[i].canonical@ == canonical_at(e, p) by {
        let d = distinct_names(e, e.len() as int);
        assert(d.contains(canonical_at(e, p)));
        assert(gs.contains(canonical_at(e, p)));
        let i = choose|i: int| 0 <= i < gs.len() && gs[i] == canonical_at(e, p);
        assert(m[i].canonical@ == gs[i]);
    }
    assert forall|i: int, j: int| 0 <= i < j < m.len() implies #[trigger] m[i].canonical@
        != #[trigger] m[j].canonical@ by {
        assert(m[i].canonical@ == gs[i] && m[j].canonical@ == gs[j]);
    }
}

/// Sorting distinct names lists them in strictly ascending order.
#[verifier::spinoff_prover]
#[verifier::rlimit(40)]
proof fn lemma_sort_names_sorted(s: Seq<Seq<char>>)
    requires
        no_dups(s),
    ensures
        forall|a: int, b: int|
            0 <= a < b < sort_names(s).len() ==> seq_lt(#[trigger] sort_names(s)[a], #[trigger] sort_names(s)[b]),
    decreases s.len(),
{
    if s.len() > 0 {
        let sd = s.drop_last();
        assert(no_dups(sd)) by {
            assert forall|i: int, j: int| 0 <= i < j < sd.len() implies sd[i] != sd[j] by {
                assert(sd[i] == s[i] && sd[j] == s[j]);
            }
        }
        lemma_sort_names_sorted(sd);
        lemma_sort_names(sd);
        let t = sort_names(sd);
        let x = s.last();
        let pos = first_where(0, t.len() as int, name_after(t, x));
        crate::model::lemma_first_where_spec(0, t.len() as int, name_after(t, x));
        let r = t.insert(pos, x);
        assert(sort_names(s) == r);
        assert forall|k: int| 0 <= k < t.len() implies t[k] != x by {
            assert(sd.contains(t[k]));
            let m = choose|m: int| 0 <= m < sd.len() && sd[m] == t[k];
            assert(s[m] == sd[m]);
        }
        assert forall|a: int, b: int| 0 <= a < b < r.len() implies seq_lt(#[trigger] r[a], #[trigger] r[b]) by {
            if a == pos {
                assert(r[b] == t[b - 1]);
                assert(name_after(t, x)(pos));
                if b - 1 > pos {
                    assert(seq_lt(t[pos], t[b - 1]));
                    crate::text::lemma_seq_lt_transitive(x, t[pos], t[b - 1]);
                }
            } else if b == pos {
                assert(r[a] == t[a]);
                assert(!name_after(t, x)(a));
                crate::text::lemma_seq_lt_strict(t[a], x);
            } else {
                let ta = if a < pos { a } else { a - 1 };
                let tb = if b < pos { b } else { b - 1 };
                assert(r[a] == t[ta]);
                assert(r[b] == t[tb]);
            }
        }
    }
}

/// A merge lists its commands by canonical name, strictly ascending (by
/// code point, as `str` orders).
pub proof fn lemma_merge_sorted(loads: Seq<SourceLoad>)
    ensures
        ({
            let m = merged_commands(flat_entries(loads));
            forall|i: int, j: int|
                0 <= i < j < m.len() ==> seq_lt(#[trigger] m[i].canonical@, #[trigger] m[j].canonical@)
        }),
{
    let e = flat_entries(loads);
    let m = merged_commands(e);
    let gs = group_order(e);
    lemma_winners(e);
    lemma_distinct_names(e, e.len() as int);
    lemma_sort_names_sorted(distinct_names(e, e.len() as int));
    assert forall|i: int, j: int| 0 <= i < j < m.len() implies seq_lt(
        #[trigger] m[i].canonical@,
        #[trigger] m[j].canonical@,
    ) by {
        assert(m[i].canonical@ == gs[i] && m[j].canonical@ == gs[j]);
    }
}

/// The override diagnostic of a winning entry.
pub open spec fn override_diag(e: Seq<(int, LoadedCommand)>, w: int) -> LoadDiagnostic {
    LoadDiagnostic::OverrideTargetMissing { target: e[w].1.overrides.unwrap(), origin: e[w].1.origin }
}

/// The override diagnostics of the groups `gs` are exactly those of their
/// winners whose override target no entry of strictly lower rank has.
pub proof fn lemma_override_diags(e: Seq<(int, LoadedCommand)>, gs: Seq<Seq<char>>)
    ensures
        forall|k: int|
            0 <= k < gs.len() && override_missing(e, winner(e, #[trigger] gs[k])) ==> override_diags(
                e,
                gs,
            ).contains(override_diag(e, winner(e, gs[k]))),
        forall|d: LoadDiagnostic| #[trigger] override_diags(e, gs).contains(d) ==> exists|k: int|
            0 <= k < gs.len() && override_missing(e, winner(e, #[trigger] gs[k])) && d == override_diag(
                e,
                winner(e, gs[k]),
            ),
    decreases gs.len(),
{
    if gs.len() > 0 {
        let prev = gs.drop_last();
        lemma_override_diags(e, prev);
        let w = winner(e, gs.last());
        let tail = if override_missing(e, w) {
            seq![override_diag(e, w)]
        } else {
            seq![]
        };
        let all = override_diags(e, gs);
        assert(all == override_diags(e, prev) + tail);
        assert forall|k: int|
            0 <= k < gs.len() && override_missing(e, winner(e, #[trigger] gs[k])) implies all.contains(
            override_diag(e, winner(e, gs[k])),
        ) by {
            if k < prev.len() {
                assert(prev[k] == gs[k]);
                let d = override_diag(e, winner(e, gs[k]));
                assert(override_diags(e, prev).contains(d));
                let m = choose|m: int| 0 <= m < override_diags(e, prev).len() && override_diags(e, prev)[m] == d;
                assert(all[m] == d);
            } else {
                assert(all[override_diags(e, prev).len() as int] == override_diag(e, w));
            }
        }
        assert forall|d: LoadDiagnostic| #[trigger] all.contains(d) implies exists|k: int|
            0 <= k < gs.len() && override_missing(e, winner(e, #[trigger] gs[k])) && d == override_diag(
                e,
                winner(e, gs[k]),
            ) by {
            let m = choose|m: int| 0 <= m < all.len() && all[m] == d;
            if m < override_diags(e, prev).len() {
                assert(override_diags(e, prev)[m] == d);
                assert(override_diags(e, prev).contains(d));
                let k = choose|k: int|
                    0 <= k < prev.len() && override_missing(e, winner(e, #[trigger] prev[k])) && d
                        == override_diag(e, winner(e, prev[k]));
                assert(prev[k] == gs[k]);
            } else {
                assert(gs[gs.len() - 1] == gs.last());
            }
        }
    }
}

/// A merge reports a winning entry's override target as missing exactly
/// when no loaded entry of strictly lower layer rank (winning or shadowed)
/// has that canonical name; same-rank entries never satisfy it. The
/// override diagnostics end the merge's diagnostics.
pub proof fn lemma_merge_override_targets(loads: Seq<SourceLoad>)
    ensures
        ({
            let e = flat_entries(loads);
            let gs = group_order(e);
            let od = override_diags(e, gs);
            &&& merged_diagnostics(loads) == flat_diagnostics(loads) + all_shadow_diags(e, gs) + od
            &&& forall|k: int|
                0 <= k < gs.len() ==> {
                    let w = #[trigger] winner(e, gs[k]);
                    (e[w].1.overrides is Some && !exists|p: int|
                        0 <= p < e.len() && canonical_at(e, p) == e[w].1.overrides.unwrap()@ && layer_rank(
                            e[p].1.origin.layer,
                        ) < layer_rank(e[w].1.origin.layer)) ==> od.contains(override_diag(e, w))
                }
            &&& forall|d: LoadDiagnostic| #[trigger] od.contains(d) ==> exists|k: int|
                0 <= k < gs.len() && {
                    let w = #[trigger] winner(e, gs[k]);
                    &&& e[w].1.overrides is Some
                    &&& !exists|p: int|
                        0 <= p < e.len() && canonical_at(e, p) == e[w].1.overrides.unwrap()@ && layer_rank(
                            e[p].1.origin.layer,
                        ) < layer_rank(e[w].1.origin.layer)
                    &&& d == override_diag(e, w)
                }
        }),
{
    let e = flat_entries(loads);
    let gs = group_order(e);
    lemma_override_diags(e, gs);
    let od = override_diags(e, gs);
    assert forall|k: int| 0 <= k < gs.len() implies {
        let w = #[trigger] winner(e, gs[k]);
        (e[w].1.overrides is Some && !exists|p: int|
            0 <= p < e.len() && canonical_at(e, p) == e[w].1.overrides.unwrap()@ && layer_rank(
                e[p].1.origin.layer,
            ) < layer_rank(e[w].1.origin.layer)) ==> od.contains(override_diag(e, w))
    } by {
        let w = winner(e, gs[k]);
        if e[w].1.overrides is Some && !exists|p: int|
            0 <= p < e.len() && canonical_at(e, p) == e[w].1.overrides.unwrap()@ && layer_rank(
                e[p].1.origin.layer,
            ) < layer_rank(e[w].1.origin.layer) {
            assert(override_missing(e, w));
        }
    }
    assert forall|d: LoadDiagnostic| #[trigger] od.contains(d) implies exists|k: int|
        0 <= k < gs.len() && {
            let w = #[trigger] winner(e, gs[k]);
            &&& e[w].1.overrides is Some
            &&& !exists|p: int|
                0 <= p < e.len() && canonical_at(e, p) == e[w].1.overrides.unwrap()@ && layer_rank(
                    e[p].1.origin.layer,
                ) < layer_rank(e[w].1.origin.layer)
            &&& d == override_diag(e, w)
        } by {
        let k = choose|k: int|
            0 <= k < gs.len() && override_missing(e, winner(e, #[trigger] gs[k])) && d == override_diag(
                e,
                winner(e, gs[k]),
            );
        assert(override_missing(e, winner(e, gs[k])));
    }
}

/// The number of entries among the first `n` in the groups `gs`, group by
/// group.
pub open spec fn group_sizes(e: Seq<(int, LoadedCommand)>, gs: Seq<Seq<char>>, n: int) -> int
    decreases gs.len(),
{
    if gs.len() == 0 {
        0
    } else {
        group_sizes(e, gs.drop_last(), n) + indices_where(n, in_group(e, gs.last())).len()
    }
}

/// How many times `x` occurs in `gs`.
pub open spec fn hits(gs: Seq<Seq<char>>, x: Seq<char>) -> int
    decreases gs.len(),
{
    if gs.len() == 0 {
        0
    } else {
        hits(gs.drop_last(), x) + if gs.last() == x {
            1int
        } else {
            0int
        }
    }
}

proof fn lemma_hits(gs: Seq<Seq<char>>, x: Seq<char>)
    requires
        no_dups(gs),
    ensures
        hits(gs, x) == if gs.contains(x) {
            1int
        } else {
            0int
        },
    decreases gs.len(),
{
    if gs.len() > 0 {
        let d = gs.drop_last();
        assert(no_dups(d)) by {
            assert forall|i: int, j: int| 0 <= i < j < d.len() implies d[i] != d[j] by {
                assert(d[i] == gs[i] && d[j] == gs[j]);
            }
        }
        lemma_hits(d, x);
        if d.contains(x) {
            let k = choose|k: int| 0 <= k < d.len() && d[k] == x;
            assert(gs[k] == x);
            assert(gs.last() != x) by {
                assert(gs[k] != gs[gs.len() - 1]);
            }
            assert(gs.contains(x));
        } else if gs.last() == x {
            assert(gs[gs.len() - 1] == x);
        } else {
            assert forall|k: int| 0 <= k < gs.len() implies gs[k] != x by {
                if k < d.len() {
                    assert(d[k] == gs[k]);
                }
            }
        }
    }
}

proof fn lemma_group_sizes_zero(e: Seq<(int, LoadedCommand)>, gs: Seq<Seq<char>>)
    ensures
        group_sizes(e, gs, 0) == 0,
    decreases gs.len(),
{
    if gs.len() > 0 {
        lemma_group_sizes_zero(e, gs.drop_last());
    }
}

proof fn lemma_group_sizes_step(e: Seq<(int, LoadedCommand)>, gs: Seq<Seq<char>>, n: int)
    requires
        n > 0,
    ensures
        group_sizes(e, gs, n) == group_sizes(e, gs, n - 1) + hits(gs, canonical_at(e, n - 1)),
    decreases gs.len(),
{
    if gs.len() > 0 {
        lemma_group_sizes_step(e, gs.drop_last(), n);
    }
}

proof fn lemma_group_sizes_total(e: Seq<(int, LoadedCommand)>, gs: Seq<Seq<char>>, n: int)
    requires
        0 <= n <= e.len(),
        no_dups(gs),
        forall|p: int| 0 <= p < n ==> gs.contains(#[trigger] canonical_at(e, p)),
    ensures
        group_sizes(e, gs, n) == n,
    decreases n,
{
    if n == 0 {
        lemma_group_sizes_zero(e, gs);
    } else {
        lemma_group_sizes_total(e, gs, n - 1);
        lemma_group_sizes_step(e, gs, n);
        lemma_hits(gs, canonical_at(e, n - 1));
    }
}

proof fn lemma_shadow_count(e: Seq<(int, LoadedCommand)>, gs: Seq<Seq<char>>)
    requires
        forall|k: int| 0 <= k < gs.len() ==> ranked_group(e, #[trigger] gs[k]).len() > 0,
    ensures
        all_shadow_diags(e, gs).len() == group_sizes(e, gs, e.len() as int) - gs.len(),
        forall|k: int| 0 <= k < all_shadow_diags(e, gs).len() ==> (#[trigger] all_shadow_diags(e, gs)[k]) is Shadowed,
    decreases gs.len(),
{
    if gs.len() > 0 {
        let d = gs.drop_last();
        assert forall|k: int| 0 <= k < d.len() implies ranked_group(e, #[trigger] d[k]).len() > 0 by {
            assert(d[k] == gs[k]);
        }
        lemma_shadow_count(e, d);
        let g = gs.last();
        assert(gs[gs.len() - 1] == g);
        lemma_rank_entries(e, indices_where(e.len() as int, in_group(e, g)));
        let prev = all_shadow_diags(e, d);
        let cur = shadow_diags(e, g);
        let all = all_shadow_diags(e, gs);
        assert(all == prev + cur);
        assert forall|k: int| 0 <= k < all.len() implies (#[trigger] all[k]) is Shadowed by {
            if k < prev.len() {
                assert(all[k] == prev[k]);
            } else {
                assert(all[k] == cur[k - prev.len()]);
            }
        }
    }
}

/// A merge reports exactly one `Shadowed` diagnostic per loaded entry that
/// does not win: with `N` entries and `K` distinct canonical names, the
/// shadow diagnostics number `N - K`, and they come right after the
/// sources' own diagnostics.
pub proof fn lemma_merge_shadow_count(loads: Seq<SourceLoad>)
    ensures
        ({
            let e = flat_entries(loads);
            let gs = group_order(e);
            let sd = all_shadow_diags(e, gs);
            &&& no_dups(gs)
            &&& forall|p: int| 0 <= p < e.len() ==> gs.contains(#[trigger] canonical_at(e, p))
            &&& forall|k: int| 0 <= k < gs.len() ==> exists|p: int| 0 <= p < e.len() && canonical_at(e, p) == #[trigger] gs[k]
            &&& sd.len() == e.len() - gs.len()
            &&& forall|k: int| 0 <= k < sd.len() ==> (#[trigger] sd[k]) is Shadowed
            &&& merged_diagnostics(loads) == flat_diagnostics(loads) + sd + override_diags(e, gs)
        }),
{
    let e = flat_entries(loads);
    let gs = group_order(e);
    lemma_winners(e);
    lemma_distinct_names(e, e.len() as int);
    lemma_distinct_names_cover(e, e.len() as int);
    lemma_sort_names(distinct_names(e, e.len() as int));
    lemma_sort_names_keeps(distinct_names(e, e.len() as int));
    assert forall|p: int| 0 <= p < e.len() implies gs.contains(#[trigger] canonical_at(e, p)) by {
        assert(distinct_names(e, e.len() as int).contains(canonical_at(e, p)));
    }
    assert forall|k: int| 0 <= k < gs.len() implies exists|p: int| 0 <= p < e.len() && canonical_at(e, p) == #[trigger] gs[k] by {
        let d = distinct_names(e, e.len() as int);
        assert(d.contains(gs[k]));
        let m = choose|m: int| 0 <= m < d.len() && d[m] == gs[k];
        assert(exists|p: int| 0 <= p < e.len() && canonical_at(e, p) == #[trigger] d[m]);
    }
    lemma_group_sizes_total(e, gs, e.len() as int);
    lemma_shadow_count(e, gs);
}

/// Every name among the first `n` entries is among their distinct names.
proof fn lemma_distinct_names_cover(e: Seq<(int, LoadedCommand)>, n: int)
    requires
        0 <= n <= e.len(),
    ensures
        forall|p: int| 0 <= p < n ==> distinct_names(e, n).contains(#[trigger] canonical_at(e, p)),
    decreases n,
{
    if n > 0 {
        lemma_distinct_names_cover(e, n - 1);
        let d = distinct_names(e, n - 1);
        if !d.contains(canonical_at(e, n - 1)) {
            let r = d.push(canonical_at(e, n - 1));
            assert forall|p: int| 0 <= p < n implies r.contains(#[trigger] canonical_at(e, p)) by {
                if p < n - 1 {
                    let k = choose|k: int| 0 <= k < d.len() && d[k] == canonical_at(e, p);
                    assert(r[k] == canonical_at(e, p));
                } else {
                    assert(r[d.len() as int] == canonical_at(e, p));
                }
            }
        }
    }
}

/// Sorting the names keeps every name.
proof fn lemma_sort_names_keeps(s: Seq<Seq<char>>)
    ensures
        forall|x: Seq<char>| s.contains(x) ==> #[trigger] sort_names(s).contains(x),
    decreases s.len(),
{
    if s.len() > 0 {
        lemma_sort_names_keeps(s.drop_last());
        let t = sort_names(s.drop_last());
        let x = s.last();
        let pos = first_where(0, t.len() as int, name_after(t, x));
        crate::model::lemma_first_where_spec(0, t.len() as int, name_after(t, x));
        let r = t.insert(pos, x);
        assert forall|y: Seq<char>| s.contains(y) implies #[trigger] r.contains(y) by {
            let m = choose|m: int| 0 <= m < s.len() && s[m] == y;
            if m == s.len() - 1 {
                assert(r[pos] == y);
            } else {
                assert(s.drop_last()[m] == y);
                assert(s.drop_last().contains(y));
                assert(t.contains(y));
                let k = choose|k: int| 0 <= k < t.len() && t[k] == y;
                if k < pos {
                    assert(r[k] == y);
                } else {
                    assert(r[k + 1] == y);
                }
            }
        }
    }
}

/// Whether some entry named `target` has a rank strictly below `rank`.
fn target_below(entries: &Vec<(usize, LoadedCommand)>, target: &String, rank: i32) -> (r: bool)
    ensures
        r == exists|p: int|
            0 <= p < entries@.len() && canonical_at(entry_view(entries@), p) == target@
                && layer_rank(entry_view(entries@)[p].1.origin.layer) < rank,
{
    let ghost e = entry_view(entries@);
    let mut p: usize = 0;
    while p < entries.len()
        invariant
            p <= entries@.len(),
            e == entry_view(entries@),
            forall|q: int|
                0 <= q < p ==> !(canonical_at(e, q) == target@ && layer_rank(e[q].1.origin.layer)
                    < rank),
        decreases entries.len() - p,
    {
        proof {
            assert(e[p as int] == (entries@[p as int].0 as int, entries@[p as int].1));
        }
        if entries[p].1.command.canonical == *target && entries[p].1.origin.layer.rank() < rank {
            proof {
                assert(canonical_at(e, p as int) == target@ && layer_rank(e[p as int].1.origin.layer) < rank);
            }
            return true;
        }
        p = p + 1;
    }
    false
}

/// Merge what the sources loaded: group the commands by canonical name
/// (case-sensitive), keep in each group the entry of highest precedence
/// (layer rank, then priority, then later source, then later position),
/// report every other entry as shadowed, and report winners whose override
/// target no lower-rank entry has. The registry lists the winners by
/// canonical name; the diagnostics are the sources' own, then the shadowed
/// entries (by name, lowest precedence first), then the missing override
/// targets (by name).
pub fn merge_loads(loads: Vec<SourceLoad>) -> (r: (Registry, Vec<LoadDiagnostic>))
    ensures
        r.0.commands@ == merged_commands(flat_entries(loads@)),
        r.1@ == merged_diagnostics(loads@),
{
    let ghost lv = loads@;
    let (entries, mut diags) = flatten(loads);
    let ghost e = entry_view(entries@);
    proof {
        lemma_winners(e);
    }
    let names = sort_names_exec(&distinct_names_exec(&entries));
    let ghost gs = views(names@);
    let ng = names.len();
    let mut winners: Vec<usize> = Vec::new();
    let mut shadows: Vec<LoadDiagnostic> = Vec::new();
    let mut i: usize = 0;
    while i < ng
        invariant
            i <= ng,
            ng == gs.len(),
            gs == views(names@),
            gs == group_order(e),
            e == entry_view(entries@),
            winners@.len() == i,
            forall|k: int| 0 <= k < i ==> winners@[k] as int == winner(e, #[trigger] gs[k]),
            shadows@ == all_shadow_diags(e, gs.take(i as int)),
            forall|k: int| 0 <= k < gs.len() ==> ranked_group(e, #[trigger] gs[k]).len() > 0,
        decreases ng - i,
    {
        let pos = group_positions(&entries, &names[i]);
        let ranked = rank_positions(&entries, &pos);
        let ghost g = gs[i as int];
        proof {
            assert(names@[i as int]@ == g);
            assert(ints(ranked@) == ranked_group(e, g));
            assert(ranked_group(e, g).len() > 0);
        }
        let n = ranked.len();
        let w = ranked[n - 1];
        proof {
            assert(ints(ranked@)[n - 1] == w as int);
        }
        let ghost before = shadows@;
        let mut k: usize = 0;
        while k + 1 < n
            invariant
                k + 1 <= n,
                n == ranked@.len(),
                w as int == winner(e, g),
                w < entries@.len(),
                e == entry_view(entries@),
                forall|m: int| 0 <= m < ranked@.len() ==> ranked@[m] < entries@.len(),
                ints(ranked@) == ranked_group(e, g),
                shadows@ == before + shadow_diags(e, g).take(k as int),
            decreases n - k,
        {
            let q = ranked[k];
            let d = LoadDiagnostic::Shadowed {
                canonical: entries[w].1.command.canonical.clone(),
                shadowed: entries[q].1.origin.copy(),
                winner: entries[w].1.origin.copy(),
            };
            proof {
                assert(e[w as int] == (entries@[w as int].0 as int, entries@[w as int].1));
                assert(e[q as int] == (entries@[q as int].0 as int, entries@[q as int].1));
                assert(ints(ranked@)[k as int] == q as int);
                assert(shadow_diags(e, g)[k as int] == d);
            }
            let ghost sp = shadows@;
            shadows.push(d);
            proof {
                assert(shadows@ =~= before + shadow_diags(e, g).take(k + 1));
            }
            k = k + 1;
        }
        proof {
            assert(shadow_diags(e, g).take(k as int) =~= shadow_diags(e, g));
            assert(gs.take(i + 1).drop_last() =~= gs.take(i as int));
            assert(gs.take(i + 1).last() == g);
        }
        winners.push(w);
        i = i + 1;
    }
    proof {
        assert(gs.take(ng as int) =~= gs);
        lemma_winners(e);
    }
    let mut missing: Vec<LoadDiagnostic> = Vec::new();
    let mut i: usize = 0;
    while i < ng
        invariant
            i <= ng,
            ng == gs.len(),
            gs == group_order(e),
            e == entry_view(entries@),
            e.len() == entries@.len(),
            winners@.len() == ng,
            forall|k: int| 0 <= k < ng ==> winners@[k] as int == winner(e, #[trigger] gs[k]),
            forall|k: int| 0 <= k < ng ==> 0 <= winner(e, #[trigger] gs[k]) < e.len(),
            missing@ == override_diags(e, gs.take(i as int)),
        decreases ng - i,
    {
        let w = winners[i];
        proof {
            assert(winners@[i as int] as int == winner(e, gs[i as int]));
            assert(0 <= winner(e, gs[i as int]) < e.len());
            assert(e[w as int] == (entries@[w as int].0 as int, entries@[w as int].1));
            assert(gs.take(i + 1).drop_last() =~= gs.take(i as int));
            assert(gs.take(i + 1).last() == gs[i as int]);
        }
        match &entries[w].1.overrides {
            Some(t) => {
                if !target_below(&entries, t, entries[w].1.origin.layer.rank()) {
                    let d = LoadDiagnostic::OverrideTargetMissing {
                        target: t.clone(),
                        origin: entries[w].1.origin.copy(),
                    };
                    let ghost mp = missing@;
                    missing.push(d);
                    proof {
                        assert(missing@ =~= override_diags(e, gs.take(i + 1)));
                    }
                } else {
                    proof {
                        assert(override_diags(e, gs.take(i + 1)) =~= override_diags(e, gs.take(i as int)));
                    }
                }
            },
            None => {
                proof {
                    assert(override_diags(e, gs.take(i + 1)) =~= override_diags(e, gs.take(i as int)));
                }
            },
        }
        i = i + 1;
    }
    proof {
        assert(gs.take(ng as int) =~= gs);
    }
    let ghost dv = diags@;
    diags.append(&mut shadows);
    diags.append(&mut missing);
    let mut slots = options_of(entries);
    let mut cmds: Vec<Command> = Vec::new();
    let mut i: usize = 0;
    while i < ng
        invariant
            i <= ng,
            ng == gs.len(),
            gs == group_order(e),
            no_dups(gs),
            slots@.len() == e.len(),
            winners@.len() == ng,
            forall|k: int| 0 <= k < ng ==> winners@[k] as int == winner(e, #[trigger] gs[k]),
            forall|k: int|
                0 <= k < ng ==> 0 <= winner(e, #[trigger] gs[k]) < e.len() && canonical_at(
                    e,
                    winner(e, gs[k]),
                ) == gs[k],
            forall|p: int|
                0 <= p < e.len() ==> (slots@[p] is Some <==> !exists|k: int|
                    0 <= k < i && winner(e, #[trigger] gs[k]) == p),
            forall|p: int| 0 <= p < e.len() && slots@[p] is Some ==> slots@[p] == Some(
                (e[p].0 as usize, e[p].1),
            ),
            cmds@ == gs.take(i as int).map_values(|g: Seq<char>| e[winner(e, g)].1.command),
        decreases ng - i,
    {
        let w = winners[i];
        proof {
            assert(winner(e, gs[i as int]) == w as int);
            assert forall|k: int| 0 <= k < i implies winner(e, #[trigger] gs[k]) != w as int by {
                if winner(e, gs[k]) == w as int {
                    assert(gs[k] == gs[i as int]);
                }
            }
            assert(slots@[w as int] is Some);
        }
        let ghost before = slots@;
        let entry = slots[w].take().unwrap();
        let (_, lc) = entry;
        cmds.push(lc.command);
        proof {
            assert(gs.take(i + 1).drop_last() =~= gs.take(i as int));
            assert(cmds@ =~= gs.take(i + 1).map_values(|g: Seq<char>| e[winner(e, g)].1.command));
            assert forall|p: int| 0 <= p < e.len() implies (slots@[p] is Some <==> !exists|k: int|
                0 <= k < i + 1 && winner(e, #[trigger] gs[k]) == p) by {
                if p == w as int {
                    assert(winner(e, gs[i as int]) == p);
                } else {
                    assert(slots@[p] == before[p]);
                    if exists|k: int| 0 <= k < i + 1 && winner(e, #[trigger] gs[k]) == p {
                        let k = choose|k: int| 0 <= k < i + 1 && winner(e, #[trigger] gs[k]) == p;
                        assert(k < i);
                    }
                }
            }
        }
        i = i + 1;
    }
    proof {
        assert(gs.take(ng as int) =~= gs);
        assert(diags@ =~= merged_diagnostics(lv));
    }
    (Registry::new(cmds), diags)
}


// ── Compiled-in commands ────────────────────────────────────────────────────

/// A source of compiled-in commands, contributed at one layer (by default
/// the embedded layer) with one priority (by default 0).
pub struct EmbeddedSource {
    /// Name reported in origins.
    pub name: String,
    /// Layer of the contributed commands.
    pub layer: Layer,
    /// The commands.
    pub commands: Vec<Command>,
    /// Priority of every contributed command.
    pub priority: i32,
}

impl EmbeddedSource {
    /// A source of `commands` at the embedded layer with priority 0.
    pub fn new(name: &str, commands: Vec<Command>) -> (r: Self)
        ensures
            r.name@ == name@ && r.layer == Layer::Embedded && r.commands == commands && r.priority
                == 0,
    {
        EmbeddedSource { name: String::from_str(name), layer: Layer::Embedded, commands, priority: 0 }
    }

    /// Contribute at `layer` instead.
    pub fn with_layer(self, layer: Layer) -> (r: Self)
        ensures
            r == (EmbeddedSource { layer, ..self }),
    {
        EmbeddedSource { layer, ..self }
    }

    /// Give every command the priority `priority`.
    pub fn with_priority(self, priority: i32) -> (r: Self)
        ensures
            r == (EmbeddedSource { priority, ..self }),
    {
        EmbeddedSource { priority, ..self }
    }

    /// The commands, in order, each with this source's name and layer, no
    /// path, this source's priority and no override target; no diagnostics.
    pub fn load(self) -> (r: SourceLoad)
        ensures
            r.diagnostics@.len() == 0,
            r.commands@.len() == self.commands@.len(),
            forall|i: int|
                0 <= i < r.commands@.len() ==> {
                    let lc = #[trigger] r.commands@[i];
                    &&& lc.command == self.commands@[i]
                    &&& lc.origin@ == (OriginView { source: self.name@, layer: self.layer, path: None })
                    &&& lc.priority == self.priority
                    &&& lc.overrides is None
                },
    {
        let EmbeddedSource { name, layer, commands, priority } = self;
        let ghost cs = commands@;
        let mut commands = commands;
        let mut out: Vec<LoadedCommand> = Vec::new();
        while commands.len() > 0
            invariant
                out@.len() + commands@.len() == cs.len(),
                commands@ == cs.skip(out@.len() as int),
                forall|i: int|
                    0 <= i < out@.len() ==> {
                        let lc = #[trigger] out@[i];
                        &&& lc.command == cs[i]
                        &&& lc.origin@ == (OriginView { source: name@, layer, path: None })
                        &&& lc.priority == priority
                        &&& lc.overrides is None
                    },
            decreases commands.len(),
        {
            let c = commands.remove(0);
            let origin = SourceOrigin { source: name.clone(), layer, path: None };
            out.push(LoadedCommand::new(c, origin).with_priority(priority));
        }
        SourceLoad { commands: out, diagnostics: Vec::new() }
    }
}

} // verus!
