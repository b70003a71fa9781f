//! The decisions of the command-line entry point: what a given argument
//! vector asks for (help, the version, the command list, a query, or a
//! parsed command to dispatch), and what the outcome of a dispatch is.
//!
//! Printing, handlers, middleware hooks and renderers are the caller's; the
//! functions here say what to print and what to run.
use vstd::prelude::*;
use crate::flag::Flag;
use crate::model::{Command, Example};
use crate::parser::{
    parse_error_text, parse_spec, ParseError, ParseErrorView, ParseOutcome, ParsedCommand,
    Parser,
};
use crate::query::{named_at, Registry};
use crate::resolver::{resolution, Resolution, ResolveError, ResolveErrorView, Resolver};
use crate::text::{join, views};
use crate::tokenizer::arg_views;

verus! {

broadcast use vstd::string::group_string_axioms;

// ── Errors ──────────────────────────────────────────────────────────────────

/// Why running a command failed.
#[derive(Debug)]
pub enum CliError {
    /// The argument vector could not be parsed.
    Parse(ParseError),
    /// The command reached has no handler; the text is its canonical name.
    NoHandler(String),
    /// A handler (or a middleware hook before it) failed; the text is its
    /// error message.
    Handler(String),
}

/// [`CliError`] with its strings taken as character sequences.
pub enum CliErrorView {
    Parse(ParseErrorView),
    NoHandler(Seq<char>),
    Handler(Seq<char>),
}

impl View for CliError {
    type V = CliErrorView;

    open spec fn view(&self) -> CliErrorView {
        match self {
            CliError::Parse(e) => CliErrorView::Parse(e@),
            CliError::NoHandler(s) => CliErrorView::NoHandler(s@),
            CliError::Handler(s) => CliErrorView::Handler(s@),
        }
    }
}

/// The text of a CLI error.
pub open spec fn cli_error_text(e: CliErrorView) -> Seq<char> {
    match e {
        CliErrorView::Parse(p) => parse_error_text(p),
        CliErrorView::NoHandler(c) => "command `"@ + c + "` has no handler registered"@,
        CliErrorView::Handler(m) => "handler error: "@ + m,
    }
}

impl CliError {
    /// The human-readable text, e.g. ``command `greet` has no handler registered``.
    pub fn message(&self) -> (r: String)
        ensures
            r@ == cli_error_text(self@),
    {
        match self {
            CliError::Parse(e) => e.message(),
            CliError::NoHandler(c) => {
                let mut r = String::from_str("command `");
                r.append(c.as_str());
                r.append("` has no handler registered");
                r
            },
            CliError::Handler(m) => {
                let mut r = String::from_str("handler error: ");
                r.append(m.as_str());
                r
            },
        }
    }
}

/// The outcome of dispatching the command `canonical`: `None` when it has
/// no handler, otherwise what the handler returned (its error as text).
pub fn dispatch_result(canonical: &str, handler: Option<Result<(), String>>) -> (r: Result<
    (),
    CliError,
>)
    ensures
        match handler {
            None => r matches Err(CliError::NoHandler(c)) && c@ == canonical@,
            Some(Ok(())) => r is Ok,
            Some(Err(m)) => r matches Err(CliError::Handler(x)) && x@ == m@,
        },
{
    match handler {
        None => Err(CliError::NoHandler(String::from_str(canonical))),
        Some(Ok(())) => Ok(()),
        Some(Err(m)) => Err(CliError::Handler(m)),
    }
}

// ── Middleware hooks ────────────────────────────────────────────────────────

/// The next step while the `before_dispatch` hooks of the registered
/// middlewares run, in registration order.
#[derive(Debug)]
pub enum HookStep {
    /// Run the hook of the middleware at this index.
    Call(usize),
    /// A hook failed: the run ends with this error; no further hook, no
    /// handler and no `after_dispatch` hook runs.
    Abort(CliError),
    /// Every hook passed: call the handler.
    Dispatch,
}

/// The index of the first failed outcome in `done`, or its length when
/// every outcome passed.
pub open spec fn first_failure(done: Seq<Result<(), String>>) -> int
    decreases done.len(),
{
    if done.len() == 0 {
        0
    } else {
        let f = first_failure(done.drop_last());
        if f < done.len() - 1 {
            f
        } else if done.last() is Err {
            done.len() - 1
        } else {
            done.len() as int
        }
    }
}

/// The first failure of the outcomes lies within them, and every outcome
/// before it passed.
pub proof fn lemma_first_failure_bounds(done: Seq<Result<(), String>>)
    ensures
        0 <= first_failure(done) <= done.len(),
        first_failure(done) < done.len() ==> done[first_failure(done)] is Err,
        forall|i: int| 0 <= i < first_failure(done) ==> (#[trigger] done[i]) is Ok,
    decreases done.len(),
{
    if done.len() > 0 {
        let rest = done.drop_last();
        lemma_first_failure_bounds(rest);
        assert forall|i: int| 0 <= i < first_failure(done) implies (#[trigger] done[i]) is Ok by {
            if i < rest.len() {
                assert(done[i] == rest[i]);
            }
        }
    }
}

/// Hooks run one after another and the first failure decides: on any
/// prefix of the outcomes, the first failure is that of the whole when it
/// lies within the prefix, and otherwise the prefix's length. So a driver
/// that asks [`next_hook`] after each hook calls the hooks `0, 1, ...` in
/// order up to and including the first that fails, and no other.
pub proof fn lemma_first_failure_prefix(outcomes: Seq<Result<(), String>>, k: int)
    requires
        0 <= k <= outcomes.len(),
    ensures
        first_failure(outcomes.take(k)) == if first_failure(outcomes) < k {
            first_failure(outcomes)
        } else {
            k
        },
    decreases outcomes.len() - k,
{
    if k == outcomes.len() {
        assert(outcomes.take(k) =~= outcomes);
    } else {
        lemma_first_failure_prefix(outcomes, k + 1);
        assert(outcomes.take(k + 1).drop_last() =~= outcomes.take(k));
        lemma_first_failure_bounds(outcomes.take(k));
        lemma_first_failure_bounds(outcomes);
    }
}

/// What to do after the `before_dispatch` hooks in `done` have run, out of
/// `count` registered middlewares: abort with the first failure's message
/// as a handler error, call the next hook, or dispatch once all passed.
pub fn next_hook(count: usize, done: &Vec<Result<(), String>>) -> (r: HookStep)
    ensures
        first_failure(done@) < done@.len() ==> (r matches HookStep::Abort(CliError::Handler(m))
            && done@[first_failure(done@)] matches Err(x) && m@ == x@),
        first_failure(done@) == done@.len() && done@.len() < count ==> r == HookStep::Call(
            done@.len() as usize,
        ),
        first_failure(done@) == done@.len() && done@.len() >= count ==> r is Dispatch,
{
    proof {
        lemma_first_failure_bounds(done@);
    }
    let mut i: usize = 0;
    while i < done.len()
        invariant
            0 <= i <= done@.len(),
            first_failure(done@.take(i as int)) == i,
            first_failure(done@) <= done@.len(),
        decreases done@.len() - i,
    {
        proof {
            lemma_first_failure_prefix(done@, i as int);
            lemma_first_failure_prefix(done@, i + 1);
            assert(done@.take(i + 1).drop_last() =~= done@.take(i as int));
        }
        match &done[i] {
            Err(m) => {
                return HookStep::Abort(CliError::Handler(m.clone()));
            },
            Ok(()) => {},
        }
        i = i + 1;
    }
    proof {
        assert(done@.take(i as int) =~= done@);
    }
    if done.len() < count {
        HookStep::Call(done.len())
    } else {
        HookStep::Dispatch
    }
}

/// The result handed to each `after_dispatch` hook: the run's result, its
/// error as the error's text.
pub fn hook_result(result: &Result<(), CliError>) -> (r: Result<(), String>)
    ensures
        match result {
            Ok(()) => r is Ok,
            Err(e) => r matches Err(m) && m@ == cli_error_text(e@),
        },
{
    match result {
        Ok(()) => Ok(()),
        Err(e) => Err(e.message()),
    }
}

// ── Configuration ───────────────────────────────────────────────────────────

/// The registry and the settings of the entry point.
pub struct Cli {
    /// The top-level commands.
    pub registry: Registry,
    /// Application name, shown before the version.
    pub app_name: String,
    /// Application version.
    pub version: Option<String>,
    /// Whether the built-in `query` command is recognised.
    pub query_support: bool,
    /// Whether dispatching a mutating command without a `dry-run` flag
    /// prints a warning.
    pub warn_missing_dry_run: bool,
}

/// The built-in `query` command, listed among the commands when query
/// support is on: a `--fields` flag that takes a value and four examples
/// (each example's description is the invocation, its command text what
/// the invocation gives).
pub fn query_command() -> (r: Command)
    ensures
        r.canonical@ == "query"@,
        r.summary@ == "Query command metadata (agent discovery)"@,
        r.description@ == "Structured JSON output for agent discovery. `query commands` lists all commands; `query <name>` returns metadata for one. Use `--fields <csv>` to request only specific top-level fields, reducing output size for agents that only need a subset of command metadata."@,
        r.flags@.len() == 1 && r.flags@[0].name@ == "fields"@ && r.flags@[0].takes_value,
        r.flags@[0].description@ == "Comma-separated list of top-level fields to include in JSON output (e.g. `canonical,summary,examples`). When omitted all fields are returned."@,
        r.flags@[0].short is None && !r.flags@[0].required && r.flags@[0].default is None
            && r.flags@[0].choices is None && !r.flags@[0].repeatable && r.flags@[0].env is None,
        r.examples@.len() == 4,
        r.examples@[0].description@ == "query commands"@ && r.examples@[0].command@
            == "List all commands as JSON"@,
        r.examples@[1].description@ == "query deploy"@ && r.examples@[1].command@
            == "Get metadata for the deploy command"@,
        r.examples@[2].description@ == "query deploy --fields canonical,summary,examples"@
            && r.examples@[2].command@
            == "Get only canonical name, summary, and examples for the deploy command"@,
        r.examples@[3].description@ == "query commands --fields canonical,summary"@
            && r.examples@[3].command@
            == "List all commands showing only canonical name and summary"@,
        forall|k: int| 0 <= k < 4 ==> (#[trigger] r.examples@[k]).output is None,
        r.aliases@.len() == 0 && r.spellings@.len() == 0 && r.semantic_aliases@.len() == 0,
        r.arguments@.len() == 0 && r.subcommands@.len() == 0,
        r.best_practices@.len() == 0 && r.anti_patterns@.len() == 0,
        r.exclusive_groups@.len() == 0 && !r.mutating && r.extra@.len() == 0,
{
    let fields = Flag {
        name: String::from_str("fields"),
        short: None,
        description: String::from_str(
            "Comma-separated list of top-level fields to include in JSON output (e.g. `canonical,summary,examples`). When omitted all fields are returned.",
        ),
        required: false,
        takes_value: true,
        default: None,
        choices: None,
        repeatable: false,
        env: None,
    };
    let mut flags: Vec<Flag> = Vec::new();
    flags.push(fields);
    let mut examples: Vec<Example> = Vec::new();
    examples.push(Example::new("query commands", "List all commands as JSON"));
    examples.push(Example::new("query deploy", "Get metadata for the deploy command"));
    examples.push(
        Example::new(
            "query deploy --fields canonical,summary,examples",
            "Get only canonical name, summary, and examples for the deploy command",
        ),
    );
    examples.push(
        Example::new(
            "query commands --fields canonical,summary",
            "List all commands showing only canonical name and summary",
        ),
    );
    Command {
        canonical: String::from_str("query"),
        aliases: Vec::new(),
        spellings: Vec::new(),
        semantic_aliases: Vec::new(),
        summary: String::from_str("Query command metadata (agent discovery)"),
        description: String::from_str(
            "Structured JSON output for agent discovery. `query commands` lists all commands; `query <name>` returns metadata for one. Use `--fields <csv>` to request only specific top-level fields, reducing output size for agents that only need a subset of command metadata.",
        ),
        arguments: Vec::new(),
        flags,
        examples,
        subcommands: Vec::new(),
        best_practices: Vec::new(),
        anti_patterns: Vec::new(),
        exclusive_groups: Vec::new(),
        mutating: false,
        extra: Vec::new(),
    }
}

impl Cli {
    /// An entry point over `commands`, with no name or version, query
    /// support off and no dry-run warning.
    pub fn new(commands: Vec<Command>) -> (r: Self)
        ensures
            r.registry.commands@ == commands@,
            r.app_name@.len() == 0 && r.version is None,
            !r.query_support && !r.warn_missing_dry_run,
    {
        Cli {
            registry: Registry::new(commands),
            app_name: String::new(),
            version: None,
            query_support: false,
            warn_missing_dry_run: false,
        }
    }

    /// Set the application name.
    pub fn app_name(self, name: &str) -> (r: Self)
        ensures
            r.app_name@ == name@,
            r.registry == self.registry && r.version == self.version && r.query_support
                == self.query_support && r.warn_missing_dry_run == self.warn_missing_dry_run,
    {
        Cli { app_name: String::from_str(name), ..self }
    }

    /// Set the application version.
    pub fn version(self, version: &str) -> (r: Self)
        ensures
            r.version matches Some(v) && v@ == version@,
            r.registry == self.registry && r.app_name == self.app_name && r.query_support
                == self.query_support && r.warn_missing_dry_run == self.warn_missing_dry_run,
    {
        Cli { version: Some(String::from_str(version)), ..self }
    }

    /// Turn the dry-run warning on or off.
    pub fn warn_missing_dry_run(self, enabled: bool) -> (r: Self)
        ensures
            r == (Cli { warn_missing_dry_run: enabled, ..self }),
    {
        Cli { warn_missing_dry_run: enabled, ..self }
    }

    /// Recognise the built-in `query` command, which is also appended to the
    /// commands.
    pub fn with_query_support(self) -> (r: Self)
        ensures
            r.query_support,
            r.registry.commands@.len() == self.registry.commands@.len() + 1,
            r.registry.commands@.drop_last() == self.registry.commands@,
            r.registry.commands@.last().canonical@ == "query"@,
            r.app_name == self.app_name && r.version == self.version && r.warn_missing_dry_run
                == self.warn_missing_dry_run,
    {
        let mut c = self;
        c.query_support = true;
        c.registry.push(query_command());
        proof {
            assert(c.registry.commands@.drop_last() =~= self.registry.commands@);
        }
        c
    }
}


// ── Version and help ────────────────────────────────────────────────────────

/// The version line: `<app> <version>`, the version alone when there is no
/// application name, or `(no version set)`.
pub open spec fn version_text(app: Seq<char>, version: Option<Seq<char>>) -> Seq<char> {
    match version {
        Some(v) => if app.len() > 0 {
            app + seq![' '] + v
        } else {
            v
        },
        None => "(no version set)"@,
    }
}

/// The words of an argument vector that do not begin with `-`.
pub open spec fn command_words(argv: Seq<Seq<char>>) -> Seq<Seq<char>>
    decreases argv.len(),
{
    if argv.len() == 0 {
        seq![]
    } else {
        let p = command_words(argv.drop_last());
        let a = argv.last();
        if a.len() > 0 && a[0] == '-' {
            p
        } else {
            p.push(a)
        }
    }
}

/// Walk from `cur` into subcommands by `words`, as far as they resolve.
pub open spec fn walk_help(cur: Command, words: Seq<Seq<char>>) -> Command
    decreases words.len(),
{
    if words.len() == 0 || cur.subcommands@.len() == 0 {
        cur
    } else {
        match resolution(cur.subcommands@, words[0]) {
            Resolution::Found(i) => walk_help(cur.subcommands@[i], words.drop_first()),
            _ => cur,
        }
    }
}

/// The command whose help `argv` asks for: the deepest command its words
/// resolve to, or `None` (the command list) when the first word does not
/// resolve or there is none.
pub open spec fn help_target_spec(cmds: Seq<Command>, argv: Seq<Seq<char>>) -> Option<Command> {
    let words = command_words(argv);
    if words.len() == 0 {
        None
    } else {
        match resolution(cmds, words[0]) {
            Resolution::Found(i) => Some(walk_help(cmds[i], words.drop_first())),
            _ => None,
        }
    }
}

impl Cli {
    /// The version line.
    pub fn version_line(&self) -> (r: String)
        ensures
            r@ == version_text(self.app_name@, opt_view(self.version)),
    {
        match &self.version {
            Some(v) => {
                if crate::text::chars_of(self.app_name.as_str()).len() > 0 {
                    let mut r = self.app_name.clone();
                    crate::text::push_char(&mut r, ' ');
                    r.append(v.as_str());
                    r
                } else {
                    v.clone()
                }
            },
            None => String::from_str("(no version set)"),
        }
    }
}

/// The view of an optional string.
pub open spec fn opt_view(o: Option<String>) -> Option<Seq<char>> {
    crate::flag::opt_view(o)
}

/// The words of `argv` that do not begin with `-`.
fn words_of<'b>(argv: &[&'b str]) -> (r: Vec<&'b str>)
    ensures
        arg_views(r@) == command_words(arg_views(argv@)),
{
    let mut out: Vec<&'b str> = Vec::new();
    let mut i: usize = 0;
    while i < argv.len()
        invariant
            i <= argv.len(),
            arg_views(out@) == command_words(arg_views(argv@).take(i as int)),
        decreases argv.len() - i,
    {
        let a = argv[i];
        proof {
            assert(arg_views(argv@).take(i + 1).drop_last() =~= arg_views(argv@).take(i as int));
            assert(arg_views(argv@).take(i + 1).last() == a@);
        }
        let v = crate::text::chars_of(a);
        if !(v.len() > 0 && v[0] == '-') {
            let ghost before = out@;
            out.push(a);
            proof {
                assert(arg_views(out@) =~= arg_views(before).push(a@));
            }
        }
        i = i + 1;
    }
    proof {
        assert(arg_views(argv@).take(argv.len() as int) =~= arg_views(argv@));
    }
    out
}

/// The command whose help `argv` asks for, or `None` for the command list.
pub fn help_target<'a>(commands: &'a [Command], argv: &[&str]) -> (r: Option<&'a Command>)
    ensures
        match help_target_spec(commands@, arg_views(argv@)) {
            None => r is None,
            Some(c) => r matches Some(x) && *x == c,
        },
{
    let words = words_of(argv);
    if words.len() == 0 {
        return None;
    }
    proof {
        assert(arg_views(words@)[0] == words@[0]@);
    }
    let top: &'a Command = match Resolver::new(commands).resolve(words[0]) {
        Ok(c) => c,
        Err(_) => {
            return None;
        },
    };
    let ghost ws = arg_views(words@);
    let mut cur: &'a Command = top;
    let mut k: usize = 1;
    proof {
        assert(ws.skip(1) =~= ws.drop_first());
    }
    while k < words.len()
        invariant
            1 <= k <= words.len(),
            ws == arg_views(words@),
            help_target_spec(commands@, arg_views(argv@)) == Some(walk_help(*cur, ws.skip(k as int))),
        decreases words.len() - k,
    {
        proof {
            assert(ws.skip(k as int)[0] == words@[k as int]@);
            assert(ws.skip(k as int).drop_first() =~= ws.skip(k + 1));
        }
        if cur.subcommands.len() == 0 {
            return Some(cur);
        }
        match Resolver::new(cur.subcommands.as_slice()).resolve(words[k]) {
            Ok(sub) => {
                cur = sub;
            },
            Err(_) => {
                return Some(cur);
            },
        }
        k = k + 1;
    }
    proof {
        assert(ws.skip(k as int) =~= Seq::<Seq<char>>::empty());
    }
    Some(cur)
}


// ── The built-in query command ──────────────────────────────────────────────

/// The options and words of a `query` invocation read so far.
pub struct QueryArgs {
    pub stream: bool,
    pub fields: Option<Seq<char>>,
    pub positional: Seq<Seq<char>>,
}

/// Read the `query` arguments from `i` on: `--json` is accepted and
/// ignored, `--stream` asks for one line per command, `--fields` takes the
/// next argument (or `--fields=v` its value) as a comma-separated field
/// list; every other argument is positional.
pub open spec fn scan_query(args: Seq<Seq<char>>, i: int, st: QueryArgs) -> QueryArgs
    decreases args.len() - i,
{
    if i < 0 || i >= args.len() {
        st
    } else {
        let a = args[i];
        if a == "--json"@ {
            scan_query(args, i + 1, st)
        } else if a == "--stream"@ {
            scan_query(args, i + 1, QueryArgs { stream: true, ..st })
        } else if a == "--fields"@ {
            if i + 1 < args.len() {
                scan_query(args, i + 2, QueryArgs { fields: Some(args[i + 1]), ..st })
            } else {
                scan_query(args, i + 1, st)
            }
        } else {
            match crate::text::strip_prefix(a, "--fields="@) {
                Some(v) => scan_query(args, i + 1, QueryArgs { fields: Some(v), ..st }),
                None => scan_query(
                    args,
                    i + 1,
                    QueryArgs { positional: st.positional.push(a), ..st },
                ),
            }
        }
    }
}

/// What a `query` invocation asks for.
pub enum QueryView {
    /// Every command (one line each when streaming), restricted to the
    /// fields when any are named.
    Commands(bool, Seq<Seq<char>>),
    /// The examples of a command.
    Examples(Command),
    /// One command.
    One(Command, bool, Seq<Seq<char>>),
    /// The name is ambiguous among these candidates.
    Ambiguous(Seq<char>, Seq<Seq<char>>),
    /// An error message.
    Error(Seq<char>),
}

/// The command a `query` name designates: the first with that canonical
/// name, else what the name resolves to.
pub open spec fn query_lookup(cmds: Seq<Command>, name: Seq<char>) -> Result<Command, Resolution> {
    let i = crate::model::first_where(0, cmds.len() as int, named_at(cmds, name));
    if i < cmds.len() {
        Ok(cmds[i])
    } else {
        match resolution(cmds, name) {
            Resolution::Found(j) => Ok(cmds[j]),
            r => Err(r),
        }
    }
}

/// What the `query` arguments `args` ask for, against the commands `cmds`.
pub open spec fn query_spec(cmds: Seq<Command>, args: Seq<Seq<char>>) -> QueryView {
    let q = scan_query(args, 0, QueryArgs { stream: false, fields: None, positional: seq![] });
    let fields = crate::markdown::nonblank_trimmed(
        crate::text::split_on(
            match q.fields {
                Some(f) => f,
                None => seq![],
            },
            ',',
        ),
    );
    let p = q.positional;
    if p.len() == 0 || p[0] == "commands"@ {
        QueryView::Commands(q.stream, fields)
    } else if p[0] == "examples"@ {
        if p.len() < 2 {
            QueryView::Error("usage: query examples <command-name>"@)
        } else {
            match query_lookup(cmds, p[1]) {
                Ok(c) => QueryView::Examples(c),
                Err(_) => QueryView::Error("unknown command: `"@ + p[1] + "`"@),
            }
        }
    } else {
        match query_lookup(cmds, p[0]) {
            Ok(c) => QueryView::One(c, q.stream, fields),
            Err(Resolution::Ambiguous(cands)) => QueryView::Ambiguous(p[0], cands),
            Err(_) => QueryView::Error("unknown command: `"@ + p[0] + "`"@),
        }
    }
}

/// What a `query` invocation asks for.
pub enum QueryPlan<'a> {
    /// Every top-level command as JSON (one line each when streaming).
    Commands { stream: bool, fields: Vec<String> },
    /// The examples of a command as JSON.
    Examples(&'a Command),
    /// One command as JSON (one compact line when streaming).
    One { command: &'a Command, stream: bool, fields: Vec<String> },
    /// The name is ambiguous: report the candidates as data.
    Ambiguous { input: String, candidates: Vec<String> },
    /// Fail with this handler error message.
    Error(String),
}

/// `p` is what `v` describes.
pub open spec fn query_holds(p: QueryPlan, v: QueryView) -> bool {
    match v {
        QueryView::Commands(s, f) => p matches QueryPlan::Commands { stream, fields } && stream
            == s && views(fields@) == f,
        QueryView::Examples(c) => p matches QueryPlan::Examples(x) && *x == c,
        QueryView::One(c, s, f) => p matches QueryPlan::One { command, stream, fields }
            && *command == c && stream == s && views(fields@) == f,
        QueryView::Ambiguous(i, c) => p matches QueryPlan::Ambiguous { input, candidates }
            && input@ == i && views(candidates@) == c,
        QueryView::Error(m) => p matches QueryPlan::Error(x) && x@ == m,
    }
}

/// The command a `query` name designates.
fn query_lookup_exec<'a>(commands: &'a [Command], name: &str) -> (r: Result<&'a Command, ResolveError>)
    ensures
        match query_lookup(commands@, name@) {
            Ok(c) => r matches Ok(x) && *x == c,
            Err(res) => r is Err && resolves_error(res, r),
        },
{
    let mut i: usize = 0;
    while i < commands.len()
        invariant
            i <= commands.len(),
            forall|k: int| 0 <= k < i ==> !(#[trigger] named_at(commands@, name@)(k)),
        decreases commands.len() - i,
    {
        if crate::text::str_eq(commands[i].canonical.as_str(), name) {
            proof {
                crate::model::lemma_first_where_at(
                    0,
                    commands@.len() as int,
                    named_at(commands@, name@),
                    i as int,
                );
            }
            return Ok(&commands[i]);
        }
        i = i + 1;
    }
    proof {
        crate::model::lemma_first_where_none(0, commands@.len() as int, named_at(commands@, name@));
    }
    Resolver::new(commands).resolve(name)
}

/// The resolution error `r` is what `res` describes.
pub open spec fn resolves_error(res: Resolution, r: Result<&Command, ResolveError>) -> bool {
    match res {
        Resolution::Ambiguous(c) => r matches Err(ResolveError::Ambiguous { input: _, candidates })
            && views(candidates@) == c,
        Resolution::Unknown(_) => r matches Err(ResolveError::Unknown { .. }),
        Resolution::Found(_) => false,
    }
}

impl Cli {
    /// What the `query` arguments `args` (after the word `query`) ask for.
    pub fn plan_query<'a>(&'a self, args: &[&str]) -> (r: QueryPlan<'a>)
        ensures
            query_holds(r, query_spec(self.registry.commands@, arg_views(args@))),
    {
        let ghost av = arg_views(args@);
        let ghost init = QueryArgs { stream: false, fields: None, positional: seq![] };
        let mut stream = false;
        let mut fields_opt: Option<String> = None;
        let mut positional: Vec<&str> = Vec::new();
        let mut i: usize = 0;
        proof {
            assert(arg_views(positional@) =~= Seq::<Seq<char>>::empty());
        }
        while i < args.len()
            invariant
                i <= args.len(),
                av == arg_views(args@),
                scan_query(av, 0, init) == scan_query(
                    av,
                    i as int,
                    QueryArgs {
                        stream,
                        fields: crate::flag::opt_view(fields_opt),
                        positional: arg_views(positional@),
                    },
                ),
            decreases args.len() - i,
        {
            let a = args[i];
            proof {
                assert(av[i as int] == a@);
            }
            let ghost before = positional@;
            if crate::text::str_eq(a, "--json") {
                i = i + 1;
            } else if crate::text::str_eq(a, "--stream") {
                stream = true;
                i = i + 1;
            } else if crate::text::str_eq(a, "--fields") {
                if i + 1 < args.len() {
                    proof {
                        assert(av[i + 1] == args@[i + 1]@);
                    }
                    fields_opt = Some(String::from_str(args[i + 1]));
                    i = i + 2;
                } else {
                    i = i + 1;
                }
            } else {
                match crate::text::strip_prefix_str(a, "--fields=") {
                    Some(v) => {
                        fields_opt = Some(v);
                    },
                    None => {
                        positional.push(a);
                        proof {
                            assert(arg_views(positional@) =~= arg_views(before).push(a@));
                        }
                    },
                }
                i = i + 1;
            }
        }
        let field_text = match &fields_opt {
            Some(f) => f.clone(),
            None => String::new(),
        };
        let parts = crate::text::split_char(field_text.as_str(), ',');
        let fields = crate::markdown::keep_nonblank(&parts);
        let cmds = self.registry.commands();
        proof {
            assert(field_text@ == match crate::flag::opt_view(fields_opt) {
                Some(f) => f,
                None => seq![],
            });
        }
        if positional.len() == 0 || crate::text::str_eq(positional[0], "commands") {
            proof {
                if positional.len() > 0 {
                    assert(arg_views(positional@)[0] == positional@[0]@);
                }
            }
            return QueryPlan::Commands { stream, fields };
        }
        proof {
            assert(arg_views(positional@)[0] == positional@[0]@);
        }
        if crate::text::str_eq(positional[0], "examples") {
            if positional.len() < 2 {
                return QueryPlan::Error(String::from_str("usage: query examples <command-name>"));
            }
            proof {
                assert(arg_views(positional@)[1] == positional@[1]@);
            }
            let name = positional[1];
            return match query_lookup_exec(cmds, name) {
                Ok(c) => QueryPlan::Examples(c),
                Err(_) => {
                    let mut m = String::from_str("unknown command: `");
                    m.append(name);
                    m.append("`");
                    QueryPlan::Error(m)
                },
            };
        }
        let name = positional[0];
        match query_lookup_exec(cmds, name) {
            Ok(c) => QueryPlan::One { command: c, stream, fields },
            Err(ResolveError::Ambiguous { input: _, candidates }) => QueryPlan::Ambiguous {
                input: String::from_str(name),
                candidates,
            },
            Err(ResolveError::Unknown { .. }) => {
                let mut m = String::from_str("unknown command: `");
                m.append(name);
                m.append("`");
                QueryPlan::Error(m)
            },
        }
    }
}


// ── Running ─────────────────────────────────────────────────────────────────

/// `--help` or `-h`.
pub open spec fn is_help_word(a: Seq<char>) -> bool {
    a == "--help"@ || a == "-h"@
}

/// `--version` or `-V`.
pub open spec fn is_version_word(a: Seq<char>) -> bool {
    a == "--version"@ || a == "-V"@
}

/// `argv` without its help words.
pub open spec fn without_help(argv: Seq<Seq<char>>) -> Seq<Seq<char>>
    decreases argv.len(),
{
    if argv.len() == 0 {
        seq![]
    } else {
        let p = without_help(argv.drop_last());
        if is_help_word(argv.last()) {
            p
        } else {
            p.push(argv.last())
        }
    }
}

/// The warning printed before dispatching `c`, when warnings are on and `c`
/// mutates state without defining a `dry-run` flag.
pub open spec fn dry_run_warning(warn: bool, c: Command) -> Option<Seq<char>> {
    if warn && c.mutating && !(exists|i: int|
        0 <= i < c.flags@.len() && #[trigger] c.flags@[i].name@ == "dry-run"@) {
        Some("warning: mutating command '"@ + c.canonical@ + "' has no --dry-run flag defined"@)
    } else {
        None
    }
}

/// The lines printed to the error stream for a parse error: the error, then
/// the suggestions of an unknown command when there are any.
pub open spec fn failure_notes(e: ParseErrorView) -> Seq<Seq<char>> {
    let first = "error: "@ + parse_error_text(e);
    match e {
        ParseErrorView::Resolve(ResolveErrorView::Unknown(_, s)) => if s.len() > 0 {
            seq![first, "Did you mean one of: "@ + join(s, ", "@)]
        } else {
            seq![first]
        },
        _ => seq![first],
    }
}

/// What an argument vector asks for.
pub enum PlanView {
    /// The built-in `query` command.
    Query(QueryView),
    /// Help for a command, or the command list.
    Help(Option<Command>),
    /// The version line.
    Version(Seq<char>),
    /// The command list (no arguments).
    List,
    /// Dispatch the command with these argument and flag maps, after
    /// printing the warning, if any.
    Dispatch(Command, Map<Seq<char>, Seq<char>>, Map<Seq<char>, Seq<char>>, Option<Seq<char>>),
    /// The parse failed: the error, the lines for the error stream, and the
    /// help to print after them.
    Failed(ParseErrorView, Seq<Seq<char>>, Option<Command>),
}

/// Whether the argument vector gets as far as parsing.
pub open spec fn reaches_parse(query_support: bool, argv: Seq<Seq<char>>) -> bool {
    &&& !(query_support && argv.len() > 0 && argv[0] == "query"@)
    &&& !(exists|i: int| 0 <= i < argv.len() && #[trigger] is_help_word(argv[i]))
    &&& !(exists|i: int| 0 <= i < argv.len() && #[trigger] is_version_word(argv[i]))
    &&& argv.len() > 0
}

/// What `argv` asks of the entry point `cli`, in this order: a query (when
/// query support is on and the first word is `query`), help (a help word
/// anywhere), the version (a version word anywhere), the command list (no
/// arguments), else the parse's command or error.
pub open spec fn plan_spec(cli: Cli, argv: Seq<Seq<char>>, env: Map<Seq<char>, Seq<char>>) -> PlanView {
    let cmds = cli.registry.commands@;
    if cli.query_support && argv.len() > 0 && argv[0] == "query"@ {
        PlanView::Query(query_spec(cmds, argv.drop_first()))
    } else if exists|i: int| 0 <= i < argv.len() && #[trigger] is_help_word(argv[i]) {
        PlanView::Help(help_target_spec(cmds, without_help(argv)))
    } else if exists|i: int| 0 <= i < argv.len() && #[trigger] is_version_word(argv[i]) {
        PlanView::Version(version_text(cli.app_name@, opt_view(cli.version)))
    } else if argv.len() == 0 {
        PlanView::List
    } else {
        match parse_spec(cmds, argv, env) {
            ParseOutcome::Parsed(c, a, f) => PlanView::Dispatch(
                c,
                a,
                f,
                dry_run_warning(cli.warn_missing_dry_run, c),
            ),
            ParseOutcome::Failed(e) => PlanView::Failed(
                e,
                failure_notes(e),
                help_target_spec(cmds, argv),
            ),
            ParseOutcome::Panics => PlanView::List,
        }
    }
}

/// What an argument vector asks for.
pub enum RunPlan<'a> {
    /// Answer the built-in `query` command.
    Query(QueryPlan<'a>),
    /// Print help for a command, or the command list for `None`.
    Help(Option<&'a Command>),
    /// Print the version line.
    Version(String),
    /// Print the command list.
    List,
    /// Print the warning (to the error stream), then dispatch.
    Dispatch { parsed: ParsedCommand<'a>, warning: Option<String> },
    /// Print the notes and then the help (to the error stream), and fail
    /// with the parse error.
    Failed { error: ParseError, notes: Vec<String>, help: Option<&'a Command> },
}

/// `p` is what `v` describes.
pub open spec fn plan_holds(p: RunPlan, v: PlanView) -> bool {
    match v {
        PlanView::Query(q) => p matches RunPlan::Query(x) && query_holds(x, q),
        PlanView::Help(t) => p matches RunPlan::Help(h) && match t {
            None => h is None,
            Some(c) => h matches Some(x) && *x == c,
        },
        PlanView::Version(t) => p matches RunPlan::Version(x) && x@ == t,
        PlanView::List => p is List,
        PlanView::Dispatch(c, a, f, w) => p matches RunPlan::Dispatch { parsed, warning }
            && *parsed.command == c && crate::model::pairs_map(parsed.args@) == a
            && crate::model::pairs_map(parsed.flags@) == f && opt_view(warning) == w,
        PlanView::Failed(e, n, t) => p matches RunPlan::Failed { error, notes, help } && error@
            == e && views(notes@) == n && match t {
            None => help is None,
            Some(c) => help matches Some(x) && *x == c,
        },
    }
}

/// Position of the first word of `argv` that satisfies `help` (help words)
/// or else version words; the length when there is none.
fn find_word(argv: &[&str], help: bool) -> (r: usize)
    ensures
        r <= argv@.len(),
        r < argv@.len() <==> exists|i: int|
            0 <= i < argv@.len() && #[trigger] arg_views(argv@)[i] == arg_views(argv@)[i] && (if help {
                is_help_word(arg_views(argv@)[i])
            } else {
                is_version_word(arg_views(argv@)[i])
            }),
{
    let mut i: usize = 0;
    while i < argv.len()
        invariant
            i <= argv.len(),
            forall|k: int|
                0 <= k < i ==> !(if help {
                    is_help_word(#[trigger] arg_views(argv@)[k])
                } else {
                    is_version_word(arg_views(argv@)[k])
                }),
        decreases argv.len() - i,
    {
        let a = argv[i];
        proof {
            assert(arg_views(argv@)[i as int] == a@);
        }
        let hit = if help {
            crate::text::str_eq(a, "--help") || crate::text::str_eq(a, "-h")
        } else {
            crate::text::str_eq(a, "--version") || crate::text::str_eq(a, "-V")
        };
        if hit {
            return i;
        }
        i = i + 1;
    }
    i
}

/// `argv` without its help words.
fn strip_help<'b>(argv: &[&'b str]) -> (r: Vec<&'b str>)
    ensures
        arg_views(r@) == without_help(arg_views(argv@)),
{
    let mut out: Vec<&'b str> = Vec::new();
    let mut i: usize = 0;
    while i < argv.len()
        invariant
            i <= argv.len(),
            arg_views(out@) == without_help(arg_views(argv@).take(i as int)),
        decreases argv.len() - i,
    {
        let a = argv[i];
        proof {
            assert(arg_views(argv@).take(i + 1).drop_last() =~= arg_views(argv@).take(i as int));
            assert(arg_views(argv@).take(i + 1).last() == a@);
        }
        if !(crate::text::str_eq(a, "--help") || crate::text::str_eq(a, "-h")) {
            let ghost before = out@;
            out.push(a);
            proof {
                assert(arg_views(out@) =~= arg_views(before).push(a@));
            }
        }
        i = i + 1;
    }
    proof {
        assert(arg_views(argv@).take(argv.len() as int) =~= arg_views(argv@));
    }
    out
}

/// Whether some flag is named `dry-run`.
fn has_dry_run(c: &Command) -> (r: bool)
    ensures
        r == exists|i: int| 0 <= i < c.flags@.len() && #[trigger] c.flags@[i].name@ == "dry-run"@,
{
    let mut i: usize = 0;
    while i < c.flags.len()
        invariant
            i <= c.flags@.len(),
            forall|k: int| 0 <= k < i ==> #[trigger] c.flags@[k].name@ != "dry-run"@,
        decreases c.flags.len() - i,
    {
        if crate::text::str_eq(c.flags[i].name.as_str(), "dry-run") {
            return true;
        }
        i = i + 1;
    }
    false
}

impl Cli {
    /// What `argv` (without the program name) asks for, with `env` the
    /// environment variables as name/value pairs; see [`plan_spec`].
    pub fn plan<'a>(&'a self, argv: &[&str], env: &Vec<(String, String)>) -> (r: RunPlan<'a>)
        requires
            reaches_parse(self.query_support, arg_views(argv@)) ==> !(parse_spec(
                self.registry.commands@,
                arg_views(argv@),
                crate::model::pairs_map(env@),
            ) is Panics),
        ensures
            plan_holds(r, plan_spec(*self, arg_views(argv@), crate::model::pairs_map(env@))),
    {
        let ghost av = arg_views(argv@);
        let cmds = self.registry.commands();
        if self.query_support && argv.len() > 0 && crate::text::str_eq(argv[0], "query") {
            proof {
                assert(av[0] == argv@[0]@);
                assert(av.drop_first() =~= arg_views(argv@.subrange(1, argv@.len() as int)));
            }
            let rest = slice_from(argv, 1);
            return RunPlan::Query(self.plan_query(rest));
        }
        proof {
            if self.query_support && argv.len() > 0 {
                assert(av[0] == argv@[0]@);
            }
        }
        if find_word(argv, true) < argv.len() {
            let remaining = strip_help(argv);
            return RunPlan::Help(help_target(cmds, remaining.as_slice()));
        }
        if find_word(argv, false) < argv.len() {
            return RunPlan::Version(self.version_line());
        }
        if argv.len() == 0 {
            return RunPlan::List;
        }
        let parser = Parser::new(cmds);
        match parser.parse_with_env(argv, env) {
            Ok(parsed) => {
                let c = parsed.command;
                let warning = if self.warn_missing_dry_run && c.mutating && !has_dry_run(c) {
                    let mut w = String::from_str("warning: mutating command '");
                    w.append(c.canonical.as_str());
                    w.append("' has no --dry-run flag defined");
                    Some(w)
                } else {
                    None
                };
                RunPlan::Dispatch { parsed, warning }
            },
            Err(error) => {
                let mut notes: Vec<String> = Vec::new();
                let mut first = String::from_str("error: ");
                first.append(error.message().as_str());
                notes.push(first);
                match &error {
                    ParseError::Resolve(ResolveError::Unknown { suggestions, .. }) => {
                        if suggestions.len() > 0 {
                            let mut more = String::from_str("Did you mean one of: ");
                            more.append(
                                crate::text::join_strings(suggestions, &String::from_str(", ")).as_str(),
                            );
                            notes.push(more);
                        }
                    },
                    _ => {},
                }
                proof {
                    assert(views(notes@) =~= failure_notes(error@));
                }
                let help = help_target(cmds, argv);
                RunPlan::Failed { error, notes, help }
            },
        }
    }
}

impl Cli {
    /// [`Cli::plan`] for any argument vector: `None` exactly when the
    /// vector gets as far as parsing and binding its positional values would
    /// panic (see [`crate::parser::Bound::Panics`]).
    pub fn plan_checked<'a>(&'a self, argv: &[&str], env: &Vec<(String, String)>) -> (r: Option<
        RunPlan<'a>,
    >)
        ensures
            r is None <==> (reaches_parse(self.query_support, arg_views(argv@)) && parse_spec(
                self.registry.commands@,
                arg_views(argv@),
                crate::model::pairs_map(env@),
            ) is Panics),
            r matches Some(p) ==> plan_holds(
                p,
                plan_spec(*self, arg_views(argv@), crate::model::pairs_map(env@)),
            ),
    {
        let ghost av = arg_views(argv@);
        let query_first = self.query_support && argv.len() > 0 && crate::text::str_eq(argv[0], "query");
        proof {
            if argv.len() > 0 {
                assert(av[0] == argv@[0]@);
            }
        }
        let help_at = find_word(argv, true);
        let version_at = find_word(argv, false);
        let reaches = !query_first && help_at >= argv.len() && version_at >= argv.len() && argv.len() > 0;
        proof {
            if !reaches {
                assert(!reaches_parse(self.query_support, av)) by {
                    if help_at < argv.len() {
                        let i = choose|i: int|
                            0 <= i < argv@.len() && #[trigger] av[i] == av[i] && is_help_word(av[i]);
                        assert(is_help_word(av[i]));
                    }
                    if version_at < argv.len() {
                        let i = choose|i: int|
                            0 <= i < argv@.len() && #[trigger] av[i] == av[i] && is_version_word(av[i]);
                        assert(is_version_word(av[i]));
                    }
                }
            } else {
                assert(reaches_parse(self.query_support, av)) by {
                    assert forall|i: int| 0 <= i < av.len() implies !#[trigger] is_help_word(av[i]) by {
                        if is_help_word(av[i]) {
                            assert(av[i] == av[i]);
                        }
                    }
                    assert forall|i: int| 0 <= i < av.len() implies !#[trigger] is_version_word(av[i]) by {
                        if is_version_word(av[i]) {
                            assert(av[i] == av[i]);
                        }
                    }
                }
            }
        }
        if reaches {
            if Parser::new(self.registry.commands()).parse_checked(argv, env).is_none() {
                return None;
            }
        }
        Some(self.plan(argv, env))
    }
}

/// `argv` from position `k` on.
fn slice_from<'b, 'c>(argv: &'c [&'b str], k: usize) -> (r: &'c [&'b str])
    requires
        k <= argv@.len(),
    ensures
        r@ == argv@.subrange(k as int, argv@.len() as int),
{
    let (_, rest) = argv.split_at(k);
    rest
}

// ── Laws of the entry point ─────────────────────────────────────────────────

/// `query` alone asks for what `query commands` asks for.
pub proof fn lemma_bare_query_lists_commands(cmds: Seq<Command>)
    ensures
        query_spec(cmds, seq![]) == query_spec(cmds, seq!["commands"@]),
        query_spec(cmds, seq![]) is Commands,
{
    let init = QueryArgs { stream: false, fields: None, positional: seq![] };
    let args = seq!["commands"@];
    reveal_strlit("commands");
    reveal_strlit("--json");
    reveal_strlit("--stream");
    reveal_strlit("--fields");
    reveal_strlit("--fields=");
    assert(args[0][0] == 'c' && "--stream"@[0] == '-' && "--fields"@[0] == '-');
    assert(args[0] != "--json"@);
    assert(args[0] != "--stream"@);
    assert(args[0] != "--fields"@);
    assert(!crate::text::starts_with(args[0], "--fields="@));
    assert(scan_query(args, 0, init) == scan_query(
        args,
        1,
        QueryArgs { positional: init.positional.push(args[0]), ..init },
    ));
}

/// Shifting the scan past a leading `--json`: scanning `x + args` from
/// `i + 1` is scanning `args` from `i`.
proof fn lemma_scan_shift(x: Seq<char>, args: Seq<Seq<char>>, i: int, st: QueryArgs)
    requires
        0 <= i,
    ensures
        scan_query(seq![x] + args, i + 1, st) == scan_query(args, i, st),
    decreases args.len() - i,
{
    let full = seq![x] + args;
    if i < args.len() {
        assert(full[i + 1] == args[i]);
        if i + 1 < args.len() {
            assert(full[i + 2] == args[i + 1]);
        }
        let a = args[i];
        if a == "--json"@ {
            lemma_scan_shift(x, args, i + 1, st);
        } else if a == "--stream"@ {
            lemma_scan_shift(x, args, i + 1, QueryArgs { stream: true, ..st });
        } else if a == "--fields"@ {
            if i + 1 < args.len() {
                lemma_scan_shift(x, args, i + 2, QueryArgs { fields: Some(args[i + 1]), ..st });
            } else {
                lemma_scan_shift(x, args, i + 1, st);
            }
        } else {
            match crate::text::strip_prefix(a, "--fields="@) {
                Some(v) => lemma_scan_shift(x, args, i + 1, QueryArgs { fields: Some(v), ..st }),
                None => lemma_scan_shift(
                    x,
                    args,
                    i + 1,
                    QueryArgs { positional: st.positional.push(a), ..st },
                ),
            }
        }
    }
}

/// `--json` is accepted and changes nothing: a query led by `--json` asks
/// for what the same query without it asks for.
pub proof fn lemma_json_flag_ignored(cmds: Seq<Command>, args: Seq<Seq<char>>)
    ensures
        query_spec(cmds, seq!["--json"@] + args) == query_spec(cmds, args),
{
    let init = QueryArgs { stream: false, fields: None, positional: seq![] };
    let full = seq!["--json"@] + args;
    assert(full[0] == "--json"@);
    assert(scan_query(full, 0, init) == scan_query(full, 1, init));
    lemma_scan_shift("--json"@, args, 0, init);
}

/// Only the flags `--help`/`-h` and `--version`/`-V` (and, with query
/// support, a leading `query`) are intercepted: any other non-empty
/// argument vector is parsed, and leads to a dispatch or a parse failure.
pub proof fn lemma_plain_words_are_parsed(cli: Cli, argv: Seq<Seq<char>>, env: Map<Seq<char>, Seq<char>>)
    requires
        reaches_parse(cli.query_support, argv),
        !(parse_spec(cli.registry.commands@, argv, env) is Panics),
    ensures
        plan_spec(cli, argv, env) is Dispatch || plan_spec(cli, argv, env) is Failed,
{
}

/// A help word anywhere in the argument vector asks for help, whatever else
/// it holds (a leading `query` with query support aside).
pub proof fn lemma_help_anywhere(cli: Cli, argv: Seq<Seq<char>>, env: Map<Seq<char>, Seq<char>>, i: int)
    requires
        0 <= i < argv.len(),
        is_help_word(argv[i]),
        !(cli.query_support && argv[0] == "query"@),
    ensures
        plan_spec(cli, argv, env) is Help,
{
}

/// What a `query <name>` (a name other than `commands` and `examples`)
/// answers: the command named exactly so, else what the name resolves to;
/// an ambiguous name is answered with its candidates as data, and a name
/// that matches nothing fails with ``unknown command: `name` ``.
pub proof fn lemma_query_named(cmds: Seq<Command>, args: Seq<Seq<char>>)
    ensures
        ({
            let p = scan_query(args, 0, QueryArgs { stream: false, fields: None, positional: seq![] }).positional;
            p.len() > 0 && p[0] != "commands"@ && p[0] != "examples"@ ==> {
                let name = p[0];
                let exact = crate::model::first_where(0, cmds.len() as int, named_at(cmds, name));
                &&& exact < cmds.len() ==> (query_spec(cmds, args) matches QueryView::One(c, _, _) && c
                    == cmds[exact])
                &&& exact >= cmds.len() ==> match resolution(cmds, name) {
                    Resolution::Found(i) => (query_spec(cmds, args) matches QueryView::One(c, _, _) && c
                        == cmds[i]),
                    Resolution::Ambiguous(cands) => query_spec(cmds, args) == QueryView::Ambiguous(
                        name,
                        cands,
                    ),
                    Resolution::Unknown(_) => query_spec(cmds, args) == QueryView::Error(
                        "unknown command: `"@ + name + "`"@,
                    ),
                }
            }
        }),
{
}

/// The outcome of an argument vector without query support: any help word
/// gives help and any version word (without a help word) the version line,
/// an empty vector the command list; otherwise a parse error is reported as
/// a failure carrying that error, and a parsed command is dispatched.
pub proof fn lemma_run_outcomes(cli: Cli, argv: Seq<Seq<char>>, env: Map<Seq<char>, Seq<char>>)
    requires
        !cli.query_support,
    ensures
        (exists|i: int| 0 <= i < argv.len() && #[trigger] is_help_word(argv[i])) ==> plan_spec(
            cli,
            argv,
            env,
        ) is Help,
        !(exists|i: int| 0 <= i < argv.len() && #[trigger] is_help_word(argv[i])) && (exists|i: int|
            0 <= i < argv.len() && #[trigger] is_version_word(argv[i])) ==> plan_spec(cli, argv, env)
            == PlanView::Version(version_text(cli.app_name@, opt_view(cli.version))),
        argv.len() == 0 ==> plan_spec(cli, argv, env) == PlanView::List,
        reaches_parse(cli.query_support, argv) ==> match parse_spec(cli.registry.commands@, argv, env) {
            ParseOutcome::Failed(e) => (plan_spec(cli, argv, env) matches PlanView::Failed(x, _, _) && x
                == e),
            ParseOutcome::Parsed(c, a, f) => plan_spec(cli, argv, env) == PlanView::Dispatch(
                c,
                a,
                f,
                dry_run_warning(cli.warn_missing_dry_run, c),
            ),
            ParseOutcome::Panics => true,
        },
{
}

} // verus!
