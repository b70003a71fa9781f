//! The command data model: positional arguments, usage examples, commands and
//! their consuming builders, with the validation that `build()` performs.
use vstd::prelude::*;
use crate::flag::{str_views, to_strings, Flag};
use crate::text::{all_ws, is_blank, lowercase, to_lowercase, views};

verus! {

/// Error returned by the builders' `build()` methods.
#[derive(Debug, Clone, PartialEq, Eq)]
pub enum BuildError {
    /// The canonical name (or argument/flag name) was empty or whitespace.
    EmptyCanonical,
    /// Two aliases on the same command share the same string.
    DuplicateAlias(String),
    /// An alias is identical to the command's canonical name.
    AliasEqualsCanonical(String),
    /// Two flags on the same command share the same long name.
    DuplicateFlagName(String),
    /// Two flags on the same command share the same short character.
    DuplicateShortFlag(char),
    /// Two positional arguments on the same command share the same name.
    DuplicateArgumentName(String),
    /// Two subcommands at the same level share the same canonical name.
    DuplicateSubcommandName(String),
    /// A variadic argument is not the last argument defined.
    VariadicNotLast(String),
    /// A flag's `choices` list is empty.
    EmptyChoices(String),
    /// A mutual-exclusivity group contains fewer than two flag names.
    ExclusiveGroupTooSmall,
    /// A flag named in a mutual-exclusivity group is not defined on the command.
    ExclusiveGroupUnknownFlag(String),
}

/// [`BuildError`] with its strings taken as character sequences.
pub enum BuildErrorView {
    EmptyCanonical,
    DuplicateAlias(Seq<char>),
    AliasEqualsCanonical(Seq<char>),
    DuplicateFlagName(Seq<char>),
    DuplicateShortFlag(char),
    DuplicateArgumentName(Seq<char>),
    DuplicateSubcommandName(Seq<char>),
    VariadicNotLast(Seq<char>),
    EmptyChoices(Seq<char>),
    ExclusiveGroupTooSmall,
    ExclusiveGroupUnknownFlag(Seq<char>),
}

impl View for BuildError {
    type V = BuildErrorView;

    open spec fn view(&self) -> BuildErrorView {
        match self {
            BuildError::EmptyCanonical => BuildErrorView::EmptyCanonical,
            BuildError::DuplicateAlias(s) => BuildErrorView::DuplicateAlias(s@),
            BuildError::AliasEqualsCanonical(s) => BuildErrorView::AliasEqualsCanonical(s@),
            BuildError::DuplicateFlagName(s) => BuildErrorView::DuplicateFlagName(s@),
            BuildError::DuplicateShortFlag(c) => BuildErrorView::DuplicateShortFlag(*c),
            BuildError::DuplicateArgumentName(s) => BuildErrorView::DuplicateArgumentName(s@),
            BuildError::DuplicateSubcommandName(s) => BuildErrorView::DuplicateSubcommandName(s@),
            BuildError::VariadicNotLast(s) => BuildErrorView::VariadicNotLast(s@),
            BuildError::EmptyChoices(s) => BuildErrorView::EmptyChoices(s@),
            BuildError::ExclusiveGroupTooSmall => BuildErrorView::ExclusiveGroupTooSmall,
            BuildError::ExclusiveGroupUnknownFlag(s) => BuildErrorView::ExclusiveGroupUnknownFlag(
                s@,
            ),
        }
    }
}

/// The human-readable text of a build error.
pub open spec fn build_error_text(e: BuildErrorView) -> Seq<char> {
    match e {
        BuildErrorView::EmptyCanonical => "canonical name must not be empty"@,
        BuildErrorView::DuplicateAlias(s) => "duplicate alias `"@ + s + "`"@,
        BuildErrorView::AliasEqualsCanonical(s) => "alias `"@ + s
            + "` duplicates the canonical name"@,
        BuildErrorView::DuplicateFlagName(s) => "duplicate flag name `"@ + s + "`"@,
        BuildErrorView::DuplicateShortFlag(c) => "duplicate short flag `-"@ + seq![c] + "`"@,
        BuildErrorView::DuplicateArgumentName(s) => "duplicate argument name `"@ + s + "`"@,
        BuildErrorView::DuplicateSubcommandName(s) => "duplicate subcommand `"@ + s + "`"@,
        BuildErrorView::VariadicNotLast(s) => "variadic argument `"@ + s
            + "` must be the last argument"@,
        BuildErrorView::EmptyChoices(s) => "flag `"@ + s + "` has an empty choices list"@,
        BuildErrorView::ExclusiveGroupTooSmall => "exclusive group must contain at least two flags"@,
        BuildErrorView::ExclusiveGroupUnknownFlag(s) => "flag `"@ + s
            + "` in exclusive group is not defined on this command"@,
    }
}

/// `s`, a literal, then `t`, then a second literal.
fn framed(a: &str, s: &String, b: &str) -> (r: String)
    ensures
        r@ == a@ + s@ + b@,
{
    let mut r = String::from_str(a);
    r.append(s.as_str());
    r.append(b);
    r
}

impl BuildError {
    /// The human-readable text, e.g. ``duplicate flag name `verbose` ``.
    pub fn message(&self) -> (r: String)
        ensures
            r@ == build_error_text(self@),
    {
        match self {
            BuildError::EmptyCanonical => String::from_str("canonical name must not be empty"),
            BuildError::DuplicateAlias(s) => framed("duplicate alias `", s, "`"),
            BuildError::AliasEqualsCanonical(s) => framed(
                "alias `",
                s,
                "` duplicates the canonical name",
            ),
            BuildError::DuplicateFlagName(s) => framed("duplicate flag name `", s, "`"),
            BuildError::DuplicateShortFlag(c) => {
                let mut r = String::from_str("duplicate short flag `-");
                crate::text::push_char(&mut r, *c);
                r.append("`");
                r
            },
            BuildError::DuplicateArgumentName(s) => framed("duplicate argument name `", s, "`"),
            BuildError::DuplicateSubcommandName(s) => framed("duplicate subcommand `", s, "`"),
            BuildError::VariadicNotLast(s) => framed(
                "variadic argument `",
                s,
                "` must be the last argument",
            ),
            BuildError::EmptyChoices(s) => framed("flag `", s, "` has an empty choices list"),
            BuildError::ExclusiveGroupTooSmall => String::from_str(
                "exclusive group must contain at least two flags",
            ),
            BuildError::ExclusiveGroupUnknownFlag(s) => framed(
                "flag `",
                s,
                "` in exclusive group is not defined on this command",
            ),
        }
    }
}

// ── Arguments and examples ──────────────────────────────────────────────────

/// A positional argument accepted by a command.
#[derive(Debug, Clone, PartialEq, Eq, Hash)]
pub struct Argument {
    /// Name used as the key of the parsed argument map.
    pub name: String,
    /// Human-readable description shown in help output.
    pub description: String,
    /// Whether parsing fails when the argument is absent.
    pub required: bool,
    /// Whether the argument collects every remaining positional value.
    pub variadic: bool,
    /// Value used when the argument is absent.
    pub default: Option<String>,
}

/// Consuming builder for [`Argument`].
pub struct ArgumentBuilder {
    pub name: String,
    pub description: String,
    pub required: bool,
    pub variadic: bool,
    pub default: Option<String>,
}

/// An [`Argument`] (or its builder) with its strings taken as character
/// sequences.
pub struct ArgumentView {
    pub name: Seq<char>,
    pub description: Seq<char>,
    pub required: bool,
    pub variadic: bool,
    pub default: Option<Seq<char>>,
}

impl View for Argument {
    type V = ArgumentView;

    open spec fn view(&self) -> ArgumentView {
        ArgumentView {
            name: self.name@,
            description: self.description@,
            required: self.required,
            variadic: self.variadic,
            default: crate::flag::opt_view(self.default),
        }
    }
}

impl View for ArgumentBuilder {
    type V = ArgumentView;

    open spec fn view(&self) -> ArgumentView {
        ArgumentView {
            name: self.name@,
            description: self.description@,
            required: self.required,
            variadic: self.variadic,
            default: crate::flag::opt_view(self.default),
        }
    }
}

impl Argument {
    /// A builder for an optional, non-variadic argument with the given name.
    pub fn builder(name: &str) -> (b: ArgumentBuilder)
        ensures
            b.name@ == name@,
            b.description@ == Seq::<char>::empty(),
            !b.required && !b.variadic && b.default is None,
    {
        ArgumentBuilder {
            name: String::from_str(name),
            description: String::new(),
            required: false,
            variadic: false,
            default: None,
        }
    }
}

impl ArgumentBuilder {
    /// Set the description.
    pub fn description(self, d: &str) -> (b: Self)
        ensures
            b.description@ == d@,
            b.name == self.name && b.required == self.required && b.variadic == self.variadic
                && b.default == self.default,
    {
        ArgumentBuilder { description: String::from_str(d), ..self }
    }

    /// Mark the argument as required.
    pub fn required(self) -> (b: Self)
        ensures
            b == (ArgumentBuilder { required: true, ..self }),
    {
        ArgumentBuilder { required: true, ..self }
    }

    /// Let the argument collect every remaining positional value.
    pub fn variadic(self) -> (b: Self)
        ensures
            b == (ArgumentBuilder { variadic: true, ..self }),
    {
        ArgumentBuilder { variadic: true, ..self }
    }

    /// Set the value used when the argument is absent.
    pub fn default_value(self, d: &str) -> (b: Self)
        ensures
            b.default matches Some(v) && v@ == d@,
            b.name == self.name && b.description == self.description && b.required
                == self.required && b.variadic == self.variadic,
    {
        ArgumentBuilder { default: Some(String::from_str(d)), ..self }
    }

    /// Finish the argument: fails with [`BuildError::EmptyCanonical`] exactly
    /// when the name is empty or all whitespace.
    pub fn build(self) -> (r: Result<Argument, BuildError>)
        ensures
            r is Err <==> all_ws(self.name@),
            r matches Err(e) ==> e == BuildError::EmptyCanonical,
            r matches Ok(a) ==> a.name == self.name && a.description == self.description
                && a.required == self.required && a.variadic == self.variadic && a.default
                == self.default,
    {
        if is_blank(self.name.as_str()) {
            return Err(BuildError::EmptyCanonical);
        }
        Ok(
            Argument {
                name: self.name,
                description: self.description,
                required: self.required,
                variadic: self.variadic,
                default: self.default,
            },
        )
    }
}

/// A usage example: what it shows, the command line, and optionally its output.
#[derive(Debug, Clone, PartialEq, Eq, Hash)]
pub struct Example {
    /// What the example demonstrates.
    pub description: String,
    /// The command line.
    pub command: String,
    /// Expected output, when documented.
    pub output: Option<String>,
}

impl Example {
    /// An example without documented output.
    pub fn new(description: &str, command: &str) -> (e: Example)
        ensures
            e.description@ == description@,
            e.command@ == command@,
            e.output is None,
    {
        Example {
            description: String::from_str(description),
            command: String::from_str(command),
            output: None,
        }
    }

    /// The same example with its expected output.
    pub fn with_output(self, output: &str) -> (e: Example)
        ensures
            e.description == self.description && e.command == self.command,
            e.output matches Some(o) && o@ == output@,
    {
        Example { output: Some(String::from_str(output)), ..self }
    }
}

// ── Commands ────────────────────────────────────────────────────────────────

/// A command of the tree: its names, documentation, arguments, flags,
/// examples, subcommands and agent-facing guidance.
#[derive(Debug, PartialEq, Eq, Hash)]
pub struct Command {
    /// The primary, canonical name.
    pub canonical: String,
    /// Advertised alternative names; they take part in prefix matching.
    pub aliases: Vec<String>,
    /// Silent alternative spellings; exact matching only.
    pub spellings: Vec<String>,
    /// Natural-language phrases used for intent discovery.
    pub semantic_aliases: Vec<String>,
    /// One-line description.
    pub summary: String,
    /// Full prose description.
    pub description: String,
    /// Positional arguments, bound in this order.
    pub arguments: Vec<Argument>,
    /// Named flags.
    pub flags: Vec<Flag>,
    /// Usage examples.
    pub examples: Vec<Example>,
    /// Nested subcommands.
    pub subcommands: Vec<Command>,
    /// Tips about correct usage.
    pub best_practices: Vec<String>,
    /// Warnings about incorrect usage.
    pub anti_patterns: Vec<String>,
    /// Groups of flag names of which at most one may be given.
    pub exclusive_groups: Vec<Vec<String>>,
    /// Whether running the command changes state.
    pub mutating: bool,
    /// Application metadata: each key with its value as JSON text.
    pub extra: Vec<(String, String)>,
}

/// Consuming builder for [`Command`].
pub struct CommandBuilder {
    pub canonical: String,
    pub aliases: Vec<String>,
    pub spellings: Vec<String>,
    pub semantic_aliases: Vec<String>,
    pub summary: String,
    pub description: String,
    pub arguments: Vec<Argument>,
    pub flags: Vec<Flag>,
    pub examples: Vec<Example>,
    pub subcommands: Vec<Command>,
    pub best_practices: Vec<String>,
    pub anti_patterns: Vec<String>,
    pub exclusive_groups: Vec<Vec<String>>,
    pub mutating: bool,
    pub extra: Vec<(String, String)>,
}

impl Command {
    /// A builder for a command with the given canonical name and nothing else.
    pub fn builder(canonical: &str) -> (b: CommandBuilder)
        ensures
            b.canonical@ == canonical@,
            b.aliases@.len() == 0 && b.spellings@.len() == 0 && b.semantic_aliases@.len() == 0,
            b.summary@.len() == 0 && b.description@.len() == 0,
            b.arguments@.len() == 0 && b.flags@.len() == 0 && b.examples@.len() == 0,
            b.subcommands@.len() == 0 && b.best_practices@.len() == 0
                && b.anti_patterns@.len() == 0,
            b.exclusive_groups@.len() == 0 && !b.mutating && b.extra@.len() == 0,
    {
        CommandBuilder {
            canonical: String::from_str(canonical),
            aliases: Vec::new(),
            spellings: Vec::new(),
            semantic_aliases: Vec::new(),
            summary: String::new(),
            description: String::new(),
            arguments: Vec::new(),
            flags: Vec::new(),
            examples: Vec::new(),
            subcommands: Vec::new(),
            best_practices: Vec::new(),
            anti_patterns: Vec::new(),
            exclusive_groups: Vec::new(),
            mutating: false,
            extra: Vec::new(),
        }
    }

    /// The names a user's input is matched against, each lowercased: the
    /// canonical name, then the aliases, then the spellings.
    pub fn matchable_strings(&self) -> (r: Vec<String>)
        ensures
            views(r@) == seq![lowercase(self.canonical@)] + views(self.aliases@).map_values(
                |s: Seq<char>| lowercase(s),
            ) + views(self.spellings@).map_values(|s: Seq<char>| lowercase(s)),
    {
        let mut out: Vec<String> = Vec::new();
        out.push(to_lowercase(self.canonical.as_str()));
        let mut i: usize = 0;
        while i < self.aliases.len()
            invariant
                i <= self.aliases@.len(),
                views(out@) == seq![lowercase(self.canonical@)] + views(self.aliases@).take(
                    i as int,
                ).map_values(|s: Seq<char>| lowercase(s)),
            decreases self.aliases.len() - i,
        {
            let ghost before = out@;
            out.push(to_lowercase(self.aliases[i].as_str()));
            proof {
                assert(views(self.aliases@).take(i + 1) =~= views(self.aliases@).take(i as int).push(
                    self.aliases@[i as int]@,
                ));
                assert(views(out@) =~= views(before).push(lowercase(self.aliases@[i as int]@)));
            }
            i = i + 1;
        }
        proof {
            assert(views(self.aliases@).take(i as int) =~= views(self.aliases@));
        }
        let ghost mid = views(out@);
        let mut j: usize = 0;
        while j < self.spellings.len()
            invariant
                j <= self.spellings@.len(),
                views(out@) == mid + views(self.spellings@).take(j as int).map_values(
                    |s: Seq<char>| lowercase(s),
                ),
            decreases self.spellings.len() - j,
        {
            let ghost before = out@;
            out.push(to_lowercase(self.spellings[j].as_str()));
            proof {
                assert(views(self.spellings@).take(j + 1) =~= views(self.spellings@).take(
                    j as int,
                ).push(self.spellings@[j as int]@));
                assert(views(out@) =~= views(before).push(lowercase(self.spellings@[j as int]@)));
            }
            j = j + 1;
        }
        proof {
            assert(views(self.spellings@).take(j as int) =~= views(self.spellings@));
        }
        out
    }
}


impl CommandBuilder {
    /// Replace the alias list.
    pub fn aliases(self, aliases: &[&str]) -> (b: Self)
        ensures
            views(b.aliases@) == str_views(aliases@),
            b == (CommandBuilder { aliases: b.aliases, ..self }),
    {
        CommandBuilder { aliases: to_strings(aliases), ..self }
    }

    /// Append one alias.
    pub fn alias(self, alias: &str) -> (b: Self)
        ensures
            views(b.aliases@) == views(self.aliases@).push(alias@),
            b == (CommandBuilder { aliases: b.aliases, ..self }),
    {
        let mut b = self;
        b.aliases.push(String::from_str(alias));
        b
    }

    /// Replace the spelling list.
    pub fn spellings(self, spellings: &[&str]) -> (b: Self)
        ensures
            views(b.spellings@) == str_views(spellings@),
            b == (CommandBuilder { spellings: b.spellings, ..self }),
    {
        CommandBuilder { spellings: to_strings(spellings), ..self }
    }

    /// Append one alternate spelling.
    pub fn spelling(self, spelling: &str) -> (b: Self)
        ensures
            views(b.spellings@) == views(self.spellings@).push(spelling@),
            b == (CommandBuilder { spellings: b.spellings, ..self }),
    {
        let mut b = self;
        b.spellings.push(String::from_str(spelling));
        b
    }

    /// Replace the semantic-alias list.
    pub fn semantic_aliases(self, phrases: &[&str]) -> (b: Self)
        ensures
            views(b.semantic_aliases@) == str_views(phrases@),
            b == (CommandBuilder { semantic_aliases: b.semantic_aliases, ..self }),
    {
        CommandBuilder { semantic_aliases: to_strings(phrases), ..self }
    }

    /// Append one semantic alias (an intent phrase).
    pub fn semantic_alias(self, phrase: &str) -> (b: Self)
        ensures
            views(b.semantic_aliases@) == views(self.semantic_aliases@).push(phrase@),
            b == (CommandBuilder { semantic_aliases: b.semantic_aliases, ..self }),
    {
        let mut b = self;
        b.semantic_aliases.push(String::from_str(phrase));
        b
    }

    /// Set the one-line summary.
    pub fn summary(self, s: &str) -> (b: Self)
        ensures
            b.summary@ == s@,
            b == (CommandBuilder { summary: b.summary, ..self }),
    {
        CommandBuilder { summary: String::from_str(s), ..self }
    }

    /// Set the prose description.
    pub fn description(self, d: &str) -> (b: Self)
        ensures
            b.description@ == d@,
            b == (CommandBuilder { description: b.description, ..self }),
    {
        CommandBuilder { description: String::from_str(d), ..self }
    }

    /// Append a positional argument.
    pub fn argument(self, arg: Argument) -> (b: Self)
        ensures
            b.arguments@ == self.arguments@.push(arg),
            b == (CommandBuilder { arguments: b.arguments, ..self }),
    {
        let mut b = self;
        b.arguments.push(arg);
        b
    }

    /// Append a flag.
    pub fn flag(self, flag: Flag) -> (b: Self)
        ensures
            b.flags@ == self.flags@.push(flag),
            b == (CommandBuilder { flags: b.flags, ..self }),
    {
        let mut b = self;
        b.flags.push(flag);
        b
    }

    /// Append a usage example.
    pub fn example(self, example: Example) -> (b: Self)
        ensures
            b.examples@ == self.examples@.push(example),
            b == (CommandBuilder { examples: b.examples, ..self }),
    {
        let mut b = self;
        b.examples.push(example);
        b
    }

    /// Append a subcommand.
    pub fn subcommand(self, cmd: Command) -> (b: Self)
        ensures
            b.subcommands@ == self.subcommands@.push(cmd),
            b == (CommandBuilder { subcommands: b.subcommands, ..self }),
    {
        let mut b = self;
        b.subcommands.push(cmd);
        b
    }

    /// Append a best-practice tip.
    pub fn best_practice(self, tip: &str) -> (b: Self)
        ensures
            views(b.best_practices@) == views(self.best_practices@).push(tip@),
            b == (CommandBuilder { best_practices: b.best_practices, ..self }),
    {
        let mut b = self;
        b.best_practices.push(String::from_str(tip));
        b
    }

    /// Append an anti-pattern warning.
    pub fn anti_pattern(self, warning: &str) -> (b: Self)
        ensures
            views(b.anti_patterns@) == views(self.anti_patterns@).push(warning@),
            b == (CommandBuilder { anti_patterns: b.anti_patterns, ..self }),
    {
        let mut b = self;
        b.anti_patterns.push(String::from_str(warning));
        b
    }

    /// Append a group of flag names of which at most one may be given.
    pub fn exclusive(self, group: &[&str]) -> (b: Self)
        ensures
            b.exclusive_groups@.len() == self.exclusive_groups@.len() + 1,
            forall|i: int|
                0 <= i < self.exclusive_groups@.len() ==> b.exclusive_groups@[i]
                    == self.exclusive_groups@[i],
            views(b.exclusive_groups@.last()@) == str_views(group@),
            b == (CommandBuilder { exclusive_groups: b.exclusive_groups, ..self }),
    {
        let mut b = self;
        b.exclusive_groups.push(to_strings(group));
        b
    }

    /// Mark the command as state-mutating.
    pub fn mutating(self) -> (b: Self)
        ensures
            b == (CommandBuilder { mutating: true, ..self }),
    {
        CommandBuilder { mutating: true, ..self }
    }

    /// Set the metadata entry `key` to the JSON text `value`, replacing an
    /// earlier entry with the same key.
    pub fn meta(self, key: &str, value: &str) -> (b: Self)
        ensures
            pairs_map(b.extra@) == pairs_map(self.extra@).insert(key@, value@),
            b == (CommandBuilder { extra: b.extra, ..self }),
    {
        let mut extra = self.extra;
        assoc_insert(&mut extra, String::from_str(key), String::from_str(value));
        CommandBuilder { extra, ..self }
    }
}

// ── Validation performed by `CommandBuilder::build` ─────────────────────────

/// Smallest `i` in `[lo, hi)` at which `p` holds, or `hi` when there is none.
pub open spec fn first_where(lo: int, hi: int, p: spec_fn(int) -> bool) -> int
    decreases hi - lo,
{
    if lo >= hi {
        hi
    } else if p(lo) {
        lo
    } else {
        first_where(lo + 1, hi, p)
    }
}

/// `first_where` finds `i` when `p(i)` holds and `p` fails before it.
pub proof fn lemma_first_where_at(lo: int, hi: int, p: spec_fn(int) -> bool, i: int)
    requires
        lo <= i < hi,
        p(i),
        forall|k: int| lo <= k < i ==> !#[trigger] p(k),
    ensures
        first_where(lo, hi, p) == i,
    decreases i - lo,
{
    if lo < i {
        lemma_first_where_at(lo + 1, hi, p, i);
    }
}

/// `first_where` gives `hi` when `p` holds nowhere in `[lo, hi)`.
pub proof fn lemma_first_where_none(lo: int, hi: int, p: spec_fn(int) -> bool)
    requires
        lo <= hi,
        forall|k: int| lo <= k < hi ==> !#[trigger] p(k),
    ensures
        first_where(lo, hi, p) == hi,
    decreases hi - lo,
{
    if lo < hi {
        lemma_first_where_none(lo + 1, hi, p);
    }
}

/// What `first_where` returns: a position where `p` holds, before which it
/// fails everywhere, or `hi`.
pub proof fn lemma_first_where_spec(lo: int, hi: int, p: spec_fn(int) -> bool)
    requires
        lo <= hi,
    ensures
        lo <= first_where(lo, hi, p) <= hi,
        first_where(lo, hi, p) < hi ==> p(first_where(lo, hi, p)),
        forall|k: int| lo <= k < first_where(lo, hi, p) ==> !#[trigger] p(k),
    decreases hi - lo,
{
    if lo < hi && !p(lo) {
        lemma_first_where_spec(lo + 1, hi, p);
    }
}

/// The element at `j` equals an earlier one.
pub open spec fn repeats_in<A>(s: Seq<A>) -> spec_fn(int) -> bool {
    |j: int| exists|i: int| 0 <= i < j && s[i] == s[j]
}

/// The lowercase forms of a list of strings.
pub open spec fn lower_views(v: Seq<String>) -> Seq<Seq<char>> {
    v.map_values(|s: String| lowercase(s@))
}

/// The long names of a list of flags.
pub open spec fn flag_names(flags: Seq<Flag>) -> Seq<Seq<char>> {
    flags.map_values(|f: Flag| f.name@)
}

/// The names of a list of arguments.
pub open spec fn argument_names(args: Seq<Argument>) -> Seq<Seq<char>> {
    args.map_values(|a: Argument| a.name@)
}

/// The canonical names of a list of commands.
pub open spec fn canonical_names(cmds: Seq<Command>) -> Seq<Seq<char>> {
    cmds.map_values(|c: Command| c.canonical@)
}

/// The alias at `i` is the canonical name, ignoring case.
pub open spec fn alias_is_canonical(b: CommandBuilder) -> spec_fn(int) -> bool {
    |i: int| lowercase(b.aliases@[i]@) == lowercase(b.canonical@)
}

/// The flag at `j` has a short form that an earlier flag also has.
pub open spec fn short_repeats(flags: Seq<Flag>) -> spec_fn(int) -> bool {
    |j: int| flags[j].short is Some && exists|i: int| 0 <= i < j && flags[i].short == flags[j].short
}

/// The argument at `i` is variadic but not the last one.
pub open spec fn variadic_not_last(args: Seq<Argument>) -> spec_fn(int) -> bool {
    |i: int| args[i].variadic && i != args.len() - 1
}

/// The flag at `i` restricts its value to an empty list of choices.
pub open spec fn choices_empty(flags: Seq<Flag>) -> spec_fn(int) -> bool {
    |i: int| flags[i].choices matches Some(c) && c@.len() == 0
}

/// Some flag has the long name `name`.
pub open spec fn flag_defined(flags: Seq<Flag>, name: Seq<char>) -> bool {
    exists|i: int| 0 <= i < flags.len() && flags[i].name@ == name
}

/// The name at `k` of `group` is no flag's long name.
pub open spec fn name_undefined(flags: Seq<Flag>, group: Seq<String>) -> spec_fn(int) -> bool {
    |k: int| !flag_defined(flags, group[k]@)
}

/// The exclusive group at `g` has fewer than two names or names an
/// undefined flag.
pub open spec fn group_bad(flags: Seq<Flag>, groups: Seq<Vec<String>>) -> spec_fn(int) -> bool {
    |g: int|
        groups[g]@.len() < 2 || first_where(0, groups[g]@.len() as int, name_undefined(flags, groups[g]@))
            < groups[g]@.len()
}

/// The error `CommandBuilder::build` reports for `b`, if any: the checks run
/// in a fixed order and each reports the first offending element.
pub open spec fn build_error(b: CommandBuilder) -> Option<BuildErrorView> {
    let al = b.aliases@;
    let na = al.len() as int;
    let fl = b.flags@;
    let nf = fl.len() as int;
    let ar = b.arguments@;
    let nr = ar.len() as int;
    let sb = b.subcommands@;
    let ns = sb.len() as int;
    let gs = b.exclusive_groups@;
    let ng = gs.len() as int;
    let ia = first_where(0, na, alias_is_canonical(b));
    let ja = first_where(0, na, repeats_in(lower_views(al)));
    let jf = first_where(0, nf, repeats_in(flag_names(fl)));
    let js = first_where(0, nf, short_repeats(fl));
    let jr = first_where(0, nr, repeats_in(argument_names(ar)));
    let jsb = first_where(0, ns, repeats_in(canonical_names(sb)));
    let jv = first_where(0, nr, variadic_not_last(ar));
    let jc = first_where(0, nf, choices_empty(fl));
    let jg = first_where(0, ng, group_bad(fl, gs));
    if all_ws(b.canonical@) {
        Some(BuildErrorView::EmptyCanonical)
    } else if ia < na {
        Some(BuildErrorView::AliasEqualsCanonical(al[ia]@))
    } else if ja < na {
        Some(BuildErrorView::DuplicateAlias(al[ja]@))
    } else if jf < nf {
        Some(BuildErrorView::DuplicateFlagName(fl[jf].name@))
    } else if js < nf {
        Some(BuildErrorView::DuplicateShortFlag(fl[js].short.unwrap()))
    } else if jr < nr {
        Some(BuildErrorView::DuplicateArgumentName(ar[jr].name@))
    } else if jsb < ns {
        Some(BuildErrorView::DuplicateSubcommandName(sb[jsb].canonical@))
    } else if jv < nr {
        Some(BuildErrorView::VariadicNotLast(ar[jv].name@))
    } else if jc < nf {
        Some(BuildErrorView::EmptyChoices(fl[jc].name@))
    } else if jg < ng {
        let g = gs[jg]@;
        if g.len() < 2 {
            Some(BuildErrorView::ExclusiveGroupTooSmall)
        } else {
            Some(
                BuildErrorView::ExclusiveGroupUnknownFlag(
                    g[first_where(0, g.len() as int, name_undefined(fl, g))]@,
                ),
            )
        }
    } else {
        None
    }
}

/// Views of a list of arguments.
pub open spec fn argument_views(a: Seq<Argument>) -> Seq<ArgumentView> {
    a.map_values(|x: Argument| x@)
}

/// Views of a list of exclusive groups.
pub open spec fn group_views(g: Seq<Vec<String>>) -> Seq<Seq<Seq<char>>> {
    g.map_values(|x: Vec<String>| views(x@))
}

/// Two builders agree on everything `build` checks: the canonical name, the
/// aliases, the flags, the arguments, the subcommands' names and the
/// exclusive groups, each taken by its view.
pub open spec fn same_checked_contents(b1: CommandBuilder, b2: CommandBuilder) -> bool {
    &&& b1.canonical@ == b2.canonical@
    &&& views(b1.aliases@) == views(b2.aliases@)
    &&& crate::flag::flag_views(b1.flags@) == crate::flag::flag_views(b2.flags@)
    &&& argument_views(b1.arguments@) == argument_views(b2.arguments@)
    &&& canonical_names(b1.subcommands@) == canonical_names(b2.subcommands@)
    &&& group_views(b1.exclusive_groups@) == group_views(b2.exclusive_groups@)
}

/// `first_where` depends only on the predicate's values inside `[lo, hi)`.
pub proof fn lemma_first_where_agree(
    lo: int,
    hi: int,
    p: spec_fn(int) -> bool,
    q: spec_fn(int) -> bool,
)
    requires
        forall|k: int| lo <= k < hi ==> #[trigger] p(k) == q(k),
    ensures
        first_where(lo, hi, p) == first_where(lo, hi, q),
    decreases hi - lo,
{
    if lo < hi {
        lemma_first_where_agree(lo + 1, hi, p, q);
    }
}

/// What `build` reports depends only on the contents it checks, taken by
/// their views.
pub proof fn lemma_build_error_same(b1: CommandBuilder, b2: CommandBuilder)
    requires
        same_checked_contents(b1, b2),
    ensures
        build_error(b1) == build_error(b2),
{
    let al1 = b1.aliases@;
    let al2 = b2.aliases@;
    let fl1 = b1.flags@;
    let fl2 = b2.flags@;
    let ar1 = b1.arguments@;
    let ar2 = b2.arguments@;
    let gs1 = b1.exclusive_groups@;
    let gs2 = b2.exclusive_groups@;
    assert(al1.len() == views(al1).len() && al2.len() == views(al2).len());
    assert(fl1.len() == crate::flag::flag_views(fl1).len());
    assert(fl2.len() == crate::flag::flag_views(fl2).len());
    assert(ar1.len() == argument_views(ar1).len() && ar2.len() == argument_views(ar2).len());
    assert(gs1.len() == group_views(gs1).len() && gs2.len() == group_views(gs2).len());
    assert(b1.subcommands@.len() == canonical_names(b1.subcommands@).len());
    assert(b2.subcommands@.len() == canonical_names(b2.subcommands@).len());
    assert forall|i: int| 0 <= i < al1.len() implies #[trigger] al1[i]@ == al2[i]@ by {
        assert(views(al1)[i] == views(al2)[i]);
    }
    assert forall|i: int| 0 <= i < fl1.len() implies #[trigger] fl1[i]@ == fl2[i]@ by {
        assert(crate::flag::flag_views(fl1)[i] == crate::flag::flag_views(fl2)[i]);
    }
    assert forall|i: int| 0 <= i < ar1.len() implies #[trigger] ar1[i]@ == ar2[i]@ by {
        assert(argument_views(ar1)[i] == argument_views(ar2)[i]);
    }
    assert forall|i: int| 0 <= i < gs1.len() implies #[trigger] views(gs1[i]@) == views(gs2[i]@) by {
        assert(group_views(gs1)[i] == group_views(gs2)[i]);
    }
    let na = al1.len() as int;
    let nf = fl1.len() as int;
    let nr = ar1.len() as int;
    let ng = gs1.len() as int;
    lemma_first_where_agree(0, na, alias_is_canonical(b1), alias_is_canonical(b2));
    assert(lower_views(al1) =~= lower_views(al2));
    assert forall|i: int| 0 <= i < nf implies #[trigger] flag_names(fl1)[i] == flag_names(fl2)[i] by {
        assert(fl1[i]@ == fl2[i]@);
    }
    assert(flag_names(fl1) =~= flag_names(fl2));
    assert forall|j: int| 0 <= j < nf implies #[trigger] short_repeats(fl1)(j) == short_repeats(fl2)(j) by {
        assert(fl1[j]@ == fl2[j]@);
        if fl1[j].short is Some && exists|i: int| 0 <= i < j && fl1[i].short == fl1[j].short {
            let i = choose|i: int| 0 <= i < j && fl1[i].short == fl1[j].short;
            assert(fl1[i]@ == fl2[i]@);
            assert(short_repeats(fl2)(j));
        }
        if fl2[j].short is Some && exists|i: int| 0 <= i < j && fl2[i].short == fl2[j].short {
            let i = choose|i: int| 0 <= i < j && fl2[i].short == fl2[j].short;
            assert(fl1[i]@ == fl2[i]@);
            assert(short_repeats(fl1)(j));
        }
    }
    lemma_first_where_agree(0, nf, short_repeats(fl1), short_repeats(fl2));
    assert forall|i: int| 0 <= i < nr implies #[trigger] argument_names(ar1)[i] == argument_names(
        ar2,
    )[i] by {
        assert(ar1[i]@ == ar2[i]@);
    }
    assert(argument_names(ar1) =~= argument_names(ar2));
    assert forall|i: int| 0 <= i < nr implies #[trigger] variadic_not_last(ar1)(i) == variadic_not_last(ar2)(
        i,
    ) by {
        assert(ar1[i]@ == ar2[i]@);
    }
    lemma_first_where_agree(0, nr, variadic_not_last(ar1), variadic_not_last(ar2));
    assert forall|i: int| 0 <= i < nf implies #[trigger] choices_empty(fl1)(i) == choices_empty(fl2)(i) by {
        assert(fl1[i]@ == fl2[i]@);
        match fl1[i].choices {
            Some(c) => {
                assert(crate::flag::string_views(c@).len() == c@.len());
            },
            None => {},
        }
        match fl2[i].choices {
            Some(c) => {
                assert(crate::flag::string_views(c@).len() == c@.len());
            },
            None => {},
        }
    }
    lemma_first_where_agree(0, nf, choices_empty(fl1), choices_empty(fl2));
    assert forall|name: Seq<char>| #[trigger] flag_defined(fl1, name) == flag_defined(fl2, name) by {
        if flag_defined(fl1, name) {
            let i = choose|i: int| 0 <= i < fl1.len() && fl1[i].name@ == name;
            assert(fl1[i]@ == fl2[i]@);
        }
        if flag_defined(fl2, name) {
            let i = choose|i: int| 0 <= i < fl2.len() && fl2[i].name@ == name;
            assert(fl1[i]@ == fl2[i]@);
        }
    }
    assert forall|g: int| 0 <= g < ng implies #[trigger] group_bad(fl1, gs1)(g) == group_bad(fl2, gs2)(g) by {
        let g1 = gs1[g]@;
        let g2 = gs2[g]@;
        assert(group_views(gs1)[g] == group_views(gs2)[g]);
        assert(views(g1) == views(g2));
        assert(g1.len() == views(g1).len() && g2.len() == views(g2).len());
        assert forall|k: int| 0 <= k < g1.len() implies #[trigger] name_undefined(fl1, g1)(k)
            == name_undefined(fl2, g2)(k) by {
            assert(views(g1)[k] == views(g2)[k]);
        }
        lemma_first_where_agree(0, g1.len() as int, name_undefined(fl1, g1), name_undefined(fl2, g2));
    }
    lemma_first_where_agree(0, ng, group_bad(fl1, gs1), group_bad(fl2, gs2));
    lemma_first_where_spec(0, ng, group_bad(fl1, gs1));
    let jg = first_where(0, ng, group_bad(fl1, gs1));
    if jg < ng {
        let g1 = gs1[jg]@;
        let g2 = gs2[jg]@;
        assert(group_views(gs1)[jg] == group_views(gs2)[jg]);
        assert(views(g1) == views(g2));
        assert forall|k: int| 0 <= k < g1.len() implies #[trigger] name_undefined(fl1, g1)(k)
            == name_undefined(fl2, g2)(k) by {
            assert(views(g1)[k] == views(g2)[k]);
        }
        lemma_first_where_agree(0, g1.len() as int, name_undefined(fl1, g1), name_undefined(fl2, g2));
        lemma_first_where_spec(0, g1.len() as int, name_undefined(fl1, g1));
        let k = first_where(0, g1.len() as int, name_undefined(fl1, g1));
        if k < g1.len() {
            assert(views(g1)[k] == views(g2)[k]);
        }
    }
    lemma_first_where_spec(0, na, alias_is_canonical(b1));
    lemma_first_where_spec(0, na, repeats_in(lower_views(al1)));
    lemma_first_where_spec(0, nf, repeats_in(flag_names(fl1)));
    lemma_first_where_spec(0, nf, short_repeats(fl1));
    lemma_first_where_spec(0, nr, repeats_in(argument_names(ar1)));
    lemma_first_where_spec(0, nr, variadic_not_last(ar1));
    lemma_first_where_spec(0, nf, choices_empty(fl1));
    let ia = first_where(0, na, alias_is_canonical(b1));
    if ia < na {
        assert(al1[ia]@ == al2[ia]@);
    }
    let ja = first_where(0, na, repeats_in(lower_views(al1)));
    if ja < na {
        assert(al1[ja]@ == al2[ja]@);
    }
    let jf = first_where(0, nf, repeats_in(flag_names(fl1)));
    if jf < nf {
        assert(fl1[jf]@ == fl2[jf]@);
    }
    let js = first_where(0, nf, short_repeats(fl1));
    if js < nf {
        assert(fl1[js]@ == fl2[js]@);
    }
    let jr = first_where(0, nr, repeats_in(argument_names(ar1)));
    if jr < nr {
        assert(ar1[jr]@ == ar2[jr]@);
    }
    let jv = first_where(0, nr, variadic_not_last(ar1));
    if jv < nr {
        assert(ar1[jv]@ == ar2[jv]@);
    }
    let jc = first_where(0, nf, choices_empty(fl1));
    if jc < nf {
        assert(fl1[jc]@ == fl2[jc]@);
    }
    let ns = b1.subcommands@.len() as int;
    lemma_first_where_spec(0, ns, repeats_in(canonical_names(b1.subcommands@)));
    let jsb = first_where(0, ns, repeats_in(canonical_names(b1.subcommands@)));
    if jsb < ns {
        assert(canonical_names(b1.subcommands@)[jsb] == canonical_names(b2.subcommands@)[jsb]);
    }
}

/// Position of the first string equal to an earlier one, or the length.
fn first_repeat(v: &Vec<String>) -> (r: usize)
    ensures
        r == first_where(0, v@.len() as int, repeats_in(views(v@))),
{
    let n = v.len();
    let mut j: usize = 0;
    while j < n
        invariant
            n == v@.len(),
            j <= n,
            forall|k: int| 0 <= k < j ==> !(#[trigger] repeats_in(views(v@))(k)),
        decreases n - j,
    {
        let mut i: usize = 0;
        while i < j
            invariant
                n == v@.len(),
                i <= j < n,
                forall|k: int| 0 <= k < j ==> !(#[trigger] repeats_in(views(v@))(k)),
                forall|k: int| 0 <= k < i ==> views(v@)[k] != views(v@)[j as int],
            decreases j - i,
        {
            if v[i] == v[j] {
                proof {
                    assert(views(v@)[i as int] == views(v@)[j as int]);
                    assert(repeats_in(views(v@))(j as int));
                    lemma_first_where_at(0, n as int, repeats_in(views(v@)), j as int);
                }
                return j;
            }
            i = i + 1;
        }
        j = j + 1;
    }
    proof {
        lemma_first_where_none(0, n as int, repeats_in(views(v@)));
    }
    n
}

/// Position of the first flag whose short form an earlier flag shares, or
/// the number of flags.
fn first_short_repeat(flags: &Vec<Flag>) -> (r: usize)
    ensures
        r == first_where(0, flags@.len() as int, short_repeats(flags@)),
{
    let n = flags.len();
    let mut j: usize = 0;
    while j < n
        invariant
            n == flags@.len(),
            j <= n,
            forall|k: int| 0 <= k < j ==> !(#[trigger] short_repeats(flags@)(k)),
        decreases n - j,
    {
        if let Some(c) = flags[j].short {
            let mut i: usize = 0;
            while i < j
                invariant
                    n == flags@.len(),
                    i <= j < n,
                    forall|k: int| 0 <= k < j ==> !(#[trigger] short_repeats(flags@)(k)),
                    flags@[j as int].short == Some(c),
                    forall|k: int| 0 <= k < i ==> flags@[k].short != Some(c),
                decreases j - i,
            {
                if flags[i].short == Some(c) {
                    proof {
                        assert(short_repeats(flags@)(j as int));
                        lemma_first_where_at(0, n as int, short_repeats(flags@), j as int);
                    }
                    return j;
                }
                i = i + 1;
            }
        }
        j = j + 1;
    }
    proof {
        lemma_first_where_none(0, n as int, short_repeats(flags@));
    }
    n
}

/// Whether some flag has the long name `name`.
fn has_flag_named(flags: &Vec<Flag>, name: &String) -> (r: bool)
    ensures
        r == flag_defined(flags@, name@),
{
    let mut i: usize = 0;
    while i < flags.len()
        invariant
            i <= flags@.len(),
            forall|k: int| 0 <= k < i ==> flags@[k].name@ != name@,
        decreases flags.len() - i,
    {
        if flags[i].name == *name {
            return true;
        }
        i = i + 1;
    }
    false
}

/// Position of the first name of `group` that no flag has, or the group's
/// length.
fn first_undefined(flags: &Vec<Flag>, group: &Vec<String>) -> (r: usize)
    ensures
        r == first_where(0, group@.len() as int, name_undefined(flags@, group@)),
{
    let mut k: usize = 0;
    while k < group.len()
        invariant
            k <= group@.len(),
            forall|m: int| 0 <= m < k ==> !(#[trigger] name_undefined(flags@, group@)(m)),
        decreases group.len() - k,
    {
        if !has_flag_named(flags, &group[k]) {
            proof {
                lemma_first_where_at(0, group@.len() as int, name_undefined(flags@, group@), k as int);
            }
            return k;
        }
        k = k + 1;
    }
    proof {
        lemma_first_where_none(0, group@.len() as int, name_undefined(flags@, group@));
    }
    group.len()
}

/// Which check of `build` fails, if any, with the position it fails at.
#[verifier::loop_isolation(false)]
fn find_build_error(b: &CommandBuilder) -> (r: Option<BuildError>)
    ensures
        match r {
            None => build_error(*b) is None,
            Some(e) => build_error(*b) == Some(e@),
        },
{
    if is_blank(b.canonical.as_str()) {
        return Some(BuildError::EmptyCanonical);
    }
    let ghost bb = *b;
    // Aliases equal to the canonical name, ignoring case.
    let na = b.aliases.len();
    let canon_lower = to_lowercase(b.canonical.as_str());
    let mut lows: Vec<String> = Vec::new();
    let mut i: usize = 0;
    while i < na
        invariant
            na == b.aliases@.len(),
            i <= na,
            canon_lower@ == lowercase(b.canonical@),
            views(lows@) == lower_views(b.aliases@).subrange(0, i as int),
            forall|k: int| 0 <= k < i ==> !(#[trigger] alias_is_canonical(*b)(k)),
        decreases na - i,
    {
        let low = to_lowercase(b.aliases[i].as_str());
        if low == canon_lower {
            proof {
                lemma_first_where_at(0, na as int, alias_is_canonical(*b), i as int);
            }
            return Some(BuildError::AliasEqualsCanonical(b.aliases[i].clone()));
        }
        lows.push(low);
        proof {
            assert(views(lows@) =~= lower_views(b.aliases@).subrange(0, i + 1));
        }
        i = i + 1;
    }
    proof {
        lemma_first_where_none(0, na as int, alias_is_canonical(*b));
        assert(views(lows@) == lower_views(b.aliases@));
    }
    let ja = first_repeat(&lows);
    if ja < na {
        return Some(BuildError::DuplicateAlias(b.aliases[ja].clone()));
    }
    // Flag names and short forms.
    let nf = b.flags.len();
    let mut names: Vec<String> = Vec::new();
    let mut i: usize = 0;
    while i < nf
        invariant
            nf == b.flags@.len(),
            i <= nf,
            views(names@) == flag_names(b.flags@).subrange(0, i as int),
        decreases nf - i,
    {
        names.push(b.flags[i].name.clone());
        proof {
            assert(views(names@) =~= flag_names(b.flags@).subrange(0, i + 1));
        }
        i = i + 1;
    }
    proof {
        assert(views(names@) == flag_names(b.flags@));
    }
    let jf = first_repeat(&names);
    if jf < nf {
        return Some(BuildError::DuplicateFlagName(b.flags[jf].name.clone()));
    }
    let js = first_short_repeat(&b.flags);
    if js < nf {
        proof {
            lemma_first_where_spec(0, nf as int, short_repeats(b.flags@));
        }
        let c = b.flags[js].short.unwrap();
        return Some(BuildError::DuplicateShortFlag(c));
    }
    // Argument names.
    let nr = b.arguments.len();
    let mut anames: Vec<String> = Vec::new();
    let mut i: usize = 0;
    while i < nr
        invariant
            nr == b.arguments@.len(),
            i <= nr,
            views(anames@) == argument_names(b.arguments@).subrange(0, i as int),
        decreases nr - i,
    {
        anames.push(b.arguments[i].name.clone());
        proof {
            assert(views(anames@) =~= argument_names(b.arguments@).subrange(0, i + 1));
        }
        i = i + 1;
    }
    proof {
        assert(views(anames@) == argument_names(b.arguments@));
    }
    let jr = first_repeat(&anames);
    if jr < nr {
        return Some(BuildError::DuplicateArgumentName(b.arguments[jr].name.clone()));
    }
    // Subcommand names.
    let ns = b.subcommands.len();
    let mut snames: Vec<String> = Vec::new();
    let mut i: usize = 0;
    while i < ns
        invariant
            ns == b.subcommands@.len(),
            i <= ns,
            views(snames@) == canonical_names(b.subcommands@).subrange(0, i as int),
        decreases ns - i,
    {
        snames.push(b.subcommands[i].canonical.clone());
        proof {
            assert(views(snames@) =~= canonical_names(b.subcommands@).subrange(0, i + 1));
        }
        i = i + 1;
    }
    proof {
        assert(views(snames@) == canonical_names(b.subcommands@));
    }
    let jsb = first_repeat(&snames);
    if jsb < ns {
        return Some(BuildError::DuplicateSubcommandName(b.subcommands[jsb].canonical.clone()));
    }
    // A variadic argument must be last.
    let mut i: usize = 0;
    while i < nr
        invariant
            nr == b.arguments@.len(),
            i <= nr,
            forall|k: int| 0 <= k < i ==> !(#[trigger] variadic_not_last(b.arguments@)(k)),
        decreases nr - i,
    {
        if b.arguments[i].variadic && i != nr - 1 {
            proof {
                lemma_first_where_at(0, nr as int, variadic_not_last(b.arguments@), i as int);
            }
            return Some(BuildError::VariadicNotLast(b.arguments[i].name.clone()));
        }
        i = i + 1;
    }
    proof {
        lemma_first_where_none(0, nr as int, variadic_not_last(b.arguments@));
    }
    // Choices lists must not be empty.
    let mut i: usize = 0;
    while i < nf
        invariant
            nf == b.flags@.len(),
            i <= nf,
            forall|k: int| 0 <= k < i ==> !(#[trigger] choices_empty(b.flags@)(k)),
        decreases nf - i,
    {
        let empty = match &b.flags[i].choices {
            Some(c) => c.len() == 0,
            None => false,
        };
        if empty {
            proof {
                lemma_first_where_at(0, nf as int, choices_empty(b.flags@), i as int);
            }
            return Some(BuildError::EmptyChoices(b.flags[i].name.clone()));
        }
        i = i + 1;
    }
    proof {
        lemma_first_where_none(0, nf as int, choices_empty(b.flags@));
    }
    // Exclusive groups.
    let ng = b.exclusive_groups.len();
    let mut g: usize = 0;
    while g < ng
        invariant
            ng == b.exclusive_groups@.len(),
            g <= ng,
            forall|k: int|
                0 <= k < g ==> !(#[trigger] group_bad(b.flags@, b.exclusive_groups@)(k)),
        decreases ng - g,
    {
        let group = &b.exclusive_groups[g];
        if group.len() < 2 {
            proof {
                lemma_first_where_at(0, ng as int, group_bad(b.flags@, b.exclusive_groups@), g as int);
            }
            return Some(BuildError::ExclusiveGroupTooSmall);
        }
        let k = first_undefined(&b.flags, group);
        if k < group.len() {
            proof {
                lemma_first_where_at(0, ng as int, group_bad(b.flags@, b.exclusive_groups@), g as int);
            }
            return Some(BuildError::ExclusiveGroupUnknownFlag(group[k].clone()));
        }
        g = g + 1;
    }
    proof {
        lemma_first_where_none(0, ng as int, group_bad(b.flags@, b.exclusive_groups@));
    }
    None
}

/// A builder that `build` accepts describes a well-formed command: its
/// canonical name is not blank; no alias equals it or another alias
/// (ignoring case); flag names, short forms, argument names and subcommand
/// names are each distinct; only the last argument is variadic; no flag
/// restricts its value to an empty list; and every exclusive group has at
/// least two names, each a defined flag.
pub proof fn lemma_built_command_valid(b: CommandBuilder)
    requires
        build_error(b) is None,
    ensures
        !all_ws(b.canonical@),
        forall|i: int| 0 <= i < b.aliases@.len() ==> lowercase(#[trigger] b.aliases@[i]@) != lowercase(b.canonical@),
        forall|i: int, j: int|
            0 <= i < j < b.aliases@.len() ==> lowercase(#[trigger] b.aliases@[i]@) != lowercase(
                #[trigger] b.aliases@[j]@,
            ),
        forall|i: int, j: int|
            0 <= i < j < b.flags@.len() ==> (#[trigger] b.flags@[i]).name@ != (#[trigger] b.flags@[j]).name@,
        forall|i: int, j: int|
            0 <= i < j < b.flags@.len() && (#[trigger] b.flags@[j]).short is Some ==> (
            #[trigger] b.flags@[i]).short != b.flags@[j].short,
        forall|i: int, j: int|
            0 <= i < j < b.arguments@.len() ==> (#[trigger] b.arguments@[i]).name@ != (
            #[trigger] b.arguments@[j]).name@,
        forall|i: int, j: int|
            0 <= i < j < b.subcommands@.len() ==> (#[trigger] b.subcommands@[i]).canonical@ != (
            #[trigger] b.subcommands@[j]).canonical@,
        forall|i: int| 0 <= i < b.arguments@.len() - 1 ==> !(#[trigger] b.arguments@[i]).variadic,
        forall|i: int|
            0 <= i < b.flags@.len() ==> !((#[trigger] b.flags@[i]).choices matches Some(c) && c@.len() == 0),
        forall|g: int|
            0 <= g < b.exclusive_groups@.len() ==> (#[trigger] b.exclusive_groups@[g])@.len() >= 2
                && forall|k: int|
                0 <= k < b.exclusive_groups@[g]@.len() ==> flag_defined(
                    b.flags@,
                    #[trigger] b.exclusive_groups@[g]@[k]@,
                ),
{
    let al = b.aliases@;
    let fl = b.flags@;
    let ar = b.arguments@;
    let sb = b.subcommands@;
    let gs = b.exclusive_groups@;
    lemma_first_where_spec(0, al.len() as int, alias_is_canonical(b));
    lemma_first_where_spec(0, al.len() as int, repeats_in(lower_views(al)));
    lemma_first_where_spec(0, fl.len() as int, repeats_in(flag_names(fl)));
    lemma_first_where_spec(0, fl.len() as int, short_repeats(fl));
    lemma_first_where_spec(0, ar.len() as int, repeats_in(argument_names(ar)));
    lemma_first_where_spec(0, sb.len() as int, repeats_in(canonical_names(sb)));
    lemma_first_where_spec(0, ar.len() as int, variadic_not_last(ar));
    lemma_first_where_spec(0, fl.len() as int, choices_empty(fl));
    lemma_first_where_spec(0, gs.len() as int, group_bad(fl, gs));
    assert forall|i: int| 0 <= i < al.len() implies lowercase(#[trigger] al[i]@) != lowercase(b.canonical@) by {
        assert(!alias_is_canonical(b)(i));
    }
    assert forall|i: int, j: int| 0 <= i < j < al.len() implies lowercase(#[trigger] al[i]@) != lowercase(
        #[trigger] al[j]@,
    ) by {
        assert(!repeats_in(lower_views(al))(j));
        assert(lower_views(al)[i] == lowercase(al[i]@));
        assert(lower_views(al)[j] == lowercase(al[j]@));
    }
    assert forall|i: int, j: int| 0 <= i < j < fl.len() implies (#[trigger] fl[i]).name@ != (
    #[trigger] fl[j]).name@ by {
        assert(!repeats_in(flag_names(fl))(j));
        assert(flag_names(fl)[i] == fl[i].name@);
        assert(flag_names(fl)[j] == fl[j].name@);
    }
    assert forall|i: int, j: int|
        0 <= i < j < fl.len() && (#[trigger] fl[j]).short is Some implies (#[trigger] fl[i]).short
        != fl[j].short by {
        assert(!short_repeats(fl)(j));
    }
    assert forall|i: int, j: int| 0 <= i < j < ar.len() implies (#[trigger] ar[i]).name@ != (
    #[trigger] ar[j]).name@ by {
        assert(!repeats_in(argument_names(ar))(j));
        assert(argument_names(ar)[i] == ar[i].name@);
        assert(argument_names(ar)[j] == ar[j].name@);
    }
    assert forall|i: int, j: int| 0 <= i < j < sb.len() implies (#[trigger] sb[i]).canonical@ != (
    #[trigger] sb[j]).canonical@ by {
        assert(!repeats_in(canonical_names(sb))(j));
        assert(canonical_names(sb)[i] == sb[i].canonical@);
        assert(canonical_names(sb)[j] == sb[j].canonical@);
    }
    assert forall|i: int| 0 <= i < ar.len() - 1 implies !(#[trigger] ar[i]).variadic by {
        assert(!variadic_not_last(ar)(i));
    }
    assert forall|i: int| 0 <= i < fl.len() implies !((#[trigger] fl[i]).choices matches Some(c) && c@.len()
        == 0) by {
        assert(!choices_empty(fl)(i));
    }
    assert forall|g: int| 0 <= g < gs.len() implies (#[trigger] gs[g])@.len() >= 2 && forall|k: int|
        0 <= k < gs[g]@.len() ==> flag_defined(fl, #[trigger] gs[g]@[k]@) by {
        assert(!group_bad(fl, gs)(g));
        lemma_first_where_spec(0, gs[g]@.len() as int, name_undefined(fl, gs[g]@));
        assert forall|k: int| 0 <= k < gs[g]@.len() implies flag_defined(fl, #[trigger] gs[g]@[k]@) by {
            assert(!name_undefined(fl, gs[g]@)(k));
        }
    }
}

/// Every check of `build` passes for `b`: the canonical name is not blank;
/// no alias equals it or another alias (ignoring case); flag names, short
/// forms, argument names and subcommand names are each distinct; only the
/// last argument is variadic; no flag restricts its value to an empty list;
/// and every exclusive group has at least two names, each a defined flag.
pub open spec fn passes_checks(b: CommandBuilder) -> bool {
    &&& !all_ws(b.canonical@)
    &&& forall|i: int| 0 <= i < b.aliases@.len() ==> lowercase(#[trigger] b.aliases@[i]@) != lowercase(b.canonical@)
    &&& forall|i: int, j: int|
        0 <= i < j < b.aliases@.len() ==> lowercase(#[trigger] b.aliases@[i]@) != lowercase(
            #[trigger] b.aliases@[j]@,
        )
    &&& forall|i: int, j: int|
        0 <= i < j < b.flags@.len() ==> (#[trigger] b.flags@[i]).name@ != (#[trigger] b.flags@[j]).name@
    &&& forall|i: int, j: int|
        0 <= i < j < b.flags@.len() && (#[trigger] b.flags@[j]).short is Some ==> (
        #[trigger] b.flags@[i]).short != b.flags@[j].short
    &&& forall|i: int, j: int|
        0 <= i < j < b.arguments@.len() ==> (#[trigger] b.arguments@[i]).name@ != (
        #[trigger] b.arguments@[j]).name@
    &&& forall|i: int, j: int|
        0 <= i < j < b.subcommands@.len() ==> (#[trigger] b.subcommands@[i]).canonical@ != (
        #[trigger] b.subcommands@[j]).canonical@
    &&& forall|i: int| 0 <= i < b.arguments@.len() - 1 ==> !(#[trigger] b.arguments@[i]).variadic
    &&& forall|i: int|
        0 <= i < b.flags@.len() ==> !((#[trigger] b.flags@[i]).choices matches Some(c) && c@.len() == 0)
    &&& forall|g: int|
        0 <= g < b.exclusive_groups@.len() ==> (#[trigger] b.exclusive_groups@[g])@.len() >= 2
            && forall|k: int|
            0 <= k < b.exclusive_groups@[g]@.len() ==> flag_defined(
                b.flags@,
                #[trigger] b.exclusive_groups@[g]@[k]@,
            )
}

/// `build` succeeds exactly when every check passes.
pub proof fn lemma_build_ok_iff_checks_pass(b: CommandBuilder)
    ensures
        build_error(b) is None <==> passes_checks(b),
{
    if build_error(b) is None {
        lemma_built_command_valid(b);
    }
    if passes_checks(b) {
        let al = b.aliases@;
        let fl = b.flags@;
        let ar = b.arguments@;
        let sb = b.subcommands@;
        let gs = b.exclusive_groups@;
        assert forall|k: int| 0 <= k < al.len() implies !#[trigger] alias_is_canonical(b)(k) by {
            assert(lowercase(al[k]@) != lowercase(b.canonical@));
        }
        lemma_first_where_none(0, al.len() as int, alias_is_canonical(b));
        assert forall|k: int| 0 <= k < al.len() implies !#[trigger] repeats_in(lower_views(al))(k) by {
            if repeats_in(lower_views(al))(k) {
                let i = choose|i: int| 0 <= i < k && lower_views(al)[i] == lower_views(al)[k];
                assert(lowercase(al[i]@) != lowercase(al[k]@));
            }
        }
        lemma_first_where_none(0, al.len() as int, repeats_in(lower_views(al)));
        assert forall|k: int| 0 <= k < fl.len() implies !#[trigger] repeats_in(flag_names(fl))(k) by {
            if repeats_in(flag_names(fl))(k) {
                let i = choose|i: int| 0 <= i < k && flag_names(fl)[i] == flag_names(fl)[k];
                assert(fl[i].name@ != fl[k].name@);
            }
        }
        lemma_first_where_none(0, fl.len() as int, repeats_in(flag_names(fl)));
        assert forall|k: int| 0 <= k < fl.len() implies !#[trigger] short_repeats(fl)(k) by {
            if short_repeats(fl)(k) {
                let i = choose|i: int| 0 <= i < k && fl[i].short == fl[k].short;
                assert(fl[i].short != fl[k].short);
            }
        }
        lemma_first_where_none(0, fl.len() as int, short_repeats(fl));
        assert forall|k: int| 0 <= k < ar.len() implies !#[trigger] repeats_in(argument_names(ar))(k) by {
            if repeats_in(argument_names(ar))(k) {
                let i = choose|i: int| 0 <= i < k && argument_names(ar)[i] == argument_names(ar)[k];
                assert(ar[i].name@ != ar[k].name@);
            }
        }
        lemma_first_where_none(0, ar.len() as int, repeats_in(argument_names(ar)));
        assert forall|k: int| 0 <= k < sb.len() implies !#[trigger] repeats_in(canonical_names(sb))(k) by {
            if repeats_in(canonical_names(sb))(k) {
                let i = choose|i: int| 0 <= i < k && canonical_names(sb)[i] == canonical_names(sb)[k];
                assert(sb[i].canonical@ != sb[k].canonical@);
            }
        }
        lemma_first_where_none(0, sb.len() as int, repeats_in(canonical_names(sb)));
        assert forall|k: int| 0 <= k < ar.len() implies !#[trigger] variadic_not_last(ar)(k) by {
            if k < ar.len() - 1 {
                assert(!ar[k].variadic);
            }
        }
        lemma_first_where_none(0, ar.len() as int, variadic_not_last(ar));
        assert forall|k: int| 0 <= k < fl.len() implies !#[trigger] choices_empty(fl)(k) by {
            assert(!(fl[k].choices matches Some(c) && c@.len() == 0));
        }
        lemma_first_where_none(0, fl.len() as int, choices_empty(fl));
        assert forall|g: int| 0 <= g < gs.len() implies !#[trigger] group_bad(fl, gs)(g) by {
            assert(gs[g]@.len() >= 2);
            assert forall|k: int| 0 <= k < gs[g]@.len() implies !#[trigger] name_undefined(fl, gs[g]@)(k) by {
                assert(flag_defined(fl, gs[g]@[k]@));
            }
            lemma_first_where_none(0, gs[g]@.len() as int, name_undefined(fl, gs[g]@));
        }
        lemma_first_where_none(0, gs.len() as int, group_bad(fl, gs));
    }
}

impl CommandBuilder {
    /// Validate and finish the command. The checks run in this order, each
    /// reporting the first offending element: blank canonical name, an alias
    /// equal to the canonical name (ignoring case), repeated aliases (ignoring
    /// case), repeated flag names, repeated short forms, repeated argument
    /// names, repeated subcommand names, a variadic argument that is not
    /// last, an empty choices list, and exclusive groups that are too small
    /// or name an undefined flag.
    pub fn build(self) -> (r: Result<Command, BuildError>)
        ensures
            r is Ok <==> build_error(self) is None,
            r matches Err(e) ==> build_error(self) == Some(e@),
            r matches Ok(c) ==> c.canonical == self.canonical && c.aliases == self.aliases
                && c.spellings == self.spellings && c.semantic_aliases == self.semantic_aliases
                && c.summary == self.summary && c.description == self.description && c.arguments
                == self.arguments && c.flags == self.flags && c.examples == self.examples
                && c.subcommands == self.subcommands && c.best_practices == self.best_practices
                && c.anti_patterns == self.anti_patterns && c.exclusive_groups
                == self.exclusive_groups && c.mutating == self.mutating && c.extra == self.extra,
    {
        if let Some(e) = find_build_error(&self) {
            return Err(e);
        }
        Ok(
            Command {
                canonical: self.canonical,
                aliases: self.aliases,
                spellings: self.spellings,
                semantic_aliases: self.semantic_aliases,
                summary: self.summary,
                description: self.description,
                arguments: self.arguments,
                flags: self.flags,
                examples: self.examples,
                subcommands: self.subcommands,
                best_practices: self.best_practices,
                anti_patterns: self.anti_patterns,
                exclusive_groups: self.exclusive_groups,
                mutating: self.mutating,
                extra: self.extra,
            },
        )
    }
}

// ── Association lists ───────────────────────────────────────────────────────

/// The map described by a list of key/value pairs; the first pair for a key
/// wins over later ones.
pub open spec fn assoc_map(s: Seq<(Seq<char>, Seq<char>)>) -> Map<Seq<char>, Seq<char>>
    decreases s.len(),
{
    if s.len() == 0 {
        Map::empty()
    } else {
        assoc_map(s.drop_first()).insert(s[0].0, s[0].1)
    }
}

/// A list of string pairs taken as character sequences.
pub open spec fn pair_views(s: Seq<(String, String)>) -> Seq<(Seq<char>, Seq<char>)> {
    s.map_values(|p: (String, String)| (p.0@, p.1@))
}

/// The metadata map of a command.
pub open spec fn pairs_map(s: Seq<(String, String)>) -> Map<Seq<char>, Seq<char>> {
    assoc_map(pair_views(s))
}

/// Set `key` to `value` in a list of pairs: the first pair with that key is
/// replaced, or the pair is appended when no pair has the key.
pub fn assoc_insert(list: &mut Vec<(String, String)>, key: String, value: String)
    ensures
        pairs_map(final(list)@) == pairs_map(old(list)@).insert(key@, value@),
{
    let ghost before = list@;
    let mut i: usize = 0;
    while i < list.len()
        invariant
            i <= list.len(),
            list@ == before,
            before == old(list)@,
            forall|j: int| 0 <= j < i ==> (#[trigger] list@[j]).0@ != key@,
        decreases list.len() - i,
    {
        if list[i].0 == key {
            let ghost kv = key@;
            let ghost vv = value@;
            list.set(i, (key, value));
            proof {
                assert forall|j: int| 0 <= j < i implies (#[trigger] pair_views(before)[j]).0
                    != kv by {
                    assert(before[j].0@ != kv);
                }
                assert(pair_views(before)[i as int].0 == kv);
                lemma_assoc_update(pair_views(before), i as int, kv, vv);
                assert(list@ == before.update(i as int, list@[i as int]));
                assert(pair_views(list@) =~= pair_views(before).update(i as int, (kv, vv)));
                assert(pairs_map(list@) == pairs_map(before).insert(kv, vv));
            }
            return ;
        }
        i = i + 1;
    }
    let ghost kv = key@;
    let ghost vv = value@;
    list.push((key, value));
    proof {
        assert forall|j: int| 0 <= j < before.len() implies (#[trigger] pair_views(before)[j]).0
            != kv by {
            assert(before[j].0@ != kv);
        }
        lemma_assoc_push(pair_views(before), kv, vv);
        assert(pair_views(list@) =~= pair_views(before).push((kv, vv)));
    }
}

/// Replacing the pair at `i`, the first with key `k`, updates the map at `k`.
pub proof fn lemma_assoc_update(
    s: Seq<(Seq<char>, Seq<char>)>,
    i: int,
    k: Seq<char>,
    v: Seq<char>,
)
    requires
        0 <= i < s.len(),
        s[i].0 == k,
        forall|j: int| 0 <= j < i ==> (#[trigger] s[j]).0 != k,
    ensures
        assoc_map(s.update(i, (k, v))) == assoc_map(s).insert(k, v),
    decreases i,
{
    if i == 0 {
        assert(s.update(i, (k, v)).drop_first() == s.drop_first());
        assert(assoc_map(s.update(i, (k, v))) =~= assoc_map(s).insert(k, v));
    } else {
        assert(s.update(i, (k, v)).drop_first() == s.drop_first().update(i - 1, (k, v)));
        assert forall|j: int| 0 <= j < i - 1 implies (#[trigger] s.drop_first()[j]).0 != k by {
            assert(s.drop_first()[j] == s[j + 1]);
        }
        lemma_assoc_update(s.drop_first(), i - 1, k, v);
        assert(s[0].0 != k);
        assert(assoc_map(s.update(i, (k, v))) =~= assoc_map(s).insert(k, v));
    }
}

/// Appending a pair whose key no pair has extends the map.
pub proof fn lemma_assoc_push(s: Seq<(Seq<char>, Seq<char>)>, k: Seq<char>, v: Seq<char>)
    requires
        forall|j: int| 0 <= j < s.len() ==> (#[trigger] s[j]).0 != k,
    ensures
        assoc_map(s.push((k, v))) == assoc_map(s).insert(k, v),
    decreases s.len(),
{
    if s.len() == 0 {
        assert(s.push((k, v)).drop_first() == s);
        assert(assoc_map(s.push((k, v))) =~= assoc_map(s).insert(k, v));
    } else {
        assert(s.push((k, v)).drop_first() == s.drop_first().push((k, v)));
        assert forall|j: int| 0 <= j < s.drop_first().len() implies (
        #[trigger] s.drop_first()[j]).0 != k by {
            assert(s.drop_first()[j] == s[j + 1]);
        }
        lemma_assoc_push(s.drop_first(), k, v);
        assert(s[0].0 != k);
        assert(assoc_map(s.push((k, v))) =~= assoc_map(s).insert(k, v));
    }
}

/// The first pair with key `k` gives the map's value at `k`.
pub proof fn lemma_assoc_first(s: Seq<(Seq<char>, Seq<char>)>, k: Seq<char>, i: int)
    requires
        0 <= i < s.len(),
        s[i].0 == k,
        forall|j: int| 0 <= j < i ==> (#[trigger] s[j]).0 != k,
    ensures
        assoc_map(s).contains_key(k),
        assoc_map(s)[k] == s[i].1,
    decreases i,
{
    if i > 0 {
        assert forall|j: int| 0 <= j < i - 1 implies (#[trigger] s.drop_first()[j]).0 != k by {
            assert(s.drop_first()[j] == s[j + 1]);
        }
        lemma_assoc_first(s.drop_first(), k, i - 1);
    }
}

/// A key that no pair has is not in the map.
pub proof fn lemma_assoc_absent(s: Seq<(Seq<char>, Seq<char>)>, k: Seq<char>)
    requires
        forall|j: int| 0 <= j < s.len() ==> (#[trigger] s[j]).0 != k,
    ensures
        !assoc_map(s).contains_key(k),
    decreases s.len(),
{
    if s.len() > 0 {
        assert forall|j: int| 0 <= j < s.drop_first().len() implies (
        #[trigger] s.drop_first()[j]).0 != k by {
            assert(s.drop_first()[j] == s[j + 1]);
        }
        lemma_assoc_absent(s.drop_first(), k);
    }
}

/// The value stored for `key` in a list of pairs (the first pair with that
/// key), if any.
pub fn assoc_lookup<'b>(list: &'b Vec<(String, String)>, key: &String) -> (r: Option<&'b String>)
    ensures
        r is Some <==> pairs_map(list@).contains_key(key@),
        r matches Some(v) ==> v@ == pairs_map(list@)[key@],
{
    let mut i: usize = 0;
    while i < list.len()
        invariant
            i <= list@.len(),
            forall|j: int| 0 <= j < i ==> (#[trigger] list@[j]).0@ != key@,
        decreases list.len() - i,
    {
        if list[i].0 == *key {
            proof {
                assert forall|j: int| 0 <= j < i implies (#[trigger] pair_views(list@)[j]).0
                    != key@ by {
                    assert(list@[j].0@ != key@);
                }
                lemma_assoc_first(pair_views(list@), key@, i as int);
            }
            return Some(&list[i].1);
        }
        i = i + 1;
    }
    proof {
        assert forall|j: int| 0 <= j < list@.len() implies (#[trigger] pair_views(list@)[j]).0
            != key@ by {
            assert(list@[j].0@ != key@);
        }
        lemma_assoc_absent(pair_views(list@), key@);
    }
    None
}

} // verus!
