//! Plain-text help, Markdown documentation, disambiguation messages, shell
//! completion scripts and agent skill files, each rendered from the command
//! model.
use vstd::prelude::*;
use crate::flag::Flag;
use crate::model::{assoc_insert, pair_views, pairs_map, first_where, lemma_first_where_at, lemma_first_where_none, Argument, Command, Example};
use crate::query::{entries_view, walk_all, CommandEntry, Registry};
use crate::resolver::ResolveError;
use crate::text::{
    contains_seq, lemma_concat_contains, lemma_concat_prefix, lemma_concat_all, lemma_concat_take, occurs_at, seq_lt, str_lt, lowercase, repeat, repeat_str, replace_char_with, replace_with, to_lowercase, append_to, concat, concat_each, concat_strings, join, join_strings, map_each, push_char, views,
};

verus! {

broadcast use vstd::string::group_string_axioms;

// ── Usage line ──────────────────────────────────────────────────────────────

/// `<name>` for a required argument, `[name]` for an optional one.
pub open spec fn usage_arg(a: Argument) -> Seq<char> {
    if a.required {
        "<"@ + a.name@ + ">"@
    } else {
        "["@ + a.name@ + "]"@
    }
}

/// The words of the usage line: the canonical name, `<subcommand>` when the
/// command has subcommands, each argument, and `[flags]` when it has flags.
pub open spec fn usage_parts(c: Command) -> Seq<Seq<char>> {
    seq![c.canonical@] + (if c.subcommands@.len() > 0 {
        seq!["<subcommand>"@]
    } else {
        seq![]
    }) + c.arguments@.map_values(|a: Argument| usage_arg(a)) + (if c.flags@.len() > 0 {
        seq!["[flags]"@]
    } else {
        seq![]
    })
}

/// The usage line, e.g. `deploy <env> [flags]`.
pub open spec fn usage(c: Command) -> Seq<char> {
    join(usage_parts(c), " "@)
}

fn usage_arg_exec(a: &Argument) -> (r: String)
    ensures
        r@ == usage_arg(*a),
{
    let mut s = String::new();
    if a.required {
        s.append("<");
        append_to(&mut s, &a.name);
        s.append(">");
    } else {
        s.append("[");
        append_to(&mut s, &a.name);
        s.append("]");
    }
    s
}

fn build_usage(c: &Command) -> (r: String)
    ensures
        r@ == usage(*c),
{
    let mut parts: Vec<String> = Vec::new();
    parts.push(c.canonical.clone());
    if c.subcommands.len() > 0 {
        parts.push(String::from_str("<subcommand>"));
    }
    let ghost head = parts@;
    let mut mapped = map_each(&c.arguments, usage_arg_exec, Ghost(|a: Argument| usage_arg(a)));
    let ghost mid = mapped@;
    parts.append(&mut mapped);
    let ghost before_flags = parts@;
    if c.flags.len() > 0 {
        parts.push(String::from_str("[flags]"));
    }
    proof {
        assert(before_flags == head + mid);
        assert(views(before_flags) =~= views(head) + views(mid));
        assert(views(parts@) =~= usage_parts(*c));
    }
    join_strings(&parts, &String::from_str(" "))
}

// ── Help text ───────────────────────────────────────────────────────────────

/// `" (required)"` when `required`.
pub open spec fn required_note(required: bool) -> Seq<char> {
    if required {
        " (required)"@
    } else {
        seq![]
    }
}

pub open spec fn help_arg_line(a: Argument) -> Seq<char> {
    "    <"@ + a.name@ + ">  "@ + a.description@ + required_note(a.required) + "\n"@
}

/// `-c, ` for a flag with a short form.
pub open spec fn short_prefix(f: Flag) -> Seq<char> {
    match f.short {
        Some(c) => seq!['-', c] + ", "@,
        None => seq![],
    }
}

pub open spec fn help_flag_line(f: Flag) -> Seq<char> {
    "    "@ + short_prefix(f) + "--"@ + f.name@ + "  "@ + f.description@ + required_note(f.required)
        + "\n"@
}

pub open spec fn help_sub_line(c: Command) -> Seq<char> {
    "    "@ + c.canonical@ + "  "@ + c.summary@ + "\n"@
}

pub open spec fn help_example(e: Example) -> Seq<char> {
    "    # "@ + e.description@ + "\n    "@ + e.command@ + "\n"@ + (match e.output {
        Some(o) => "    # Output: "@ + o@ + "\n"@,
        None => seq![],
    }) + "\n"@
}

pub open spec fn help_bullet(s: String) -> Seq<char> {
    "    - "@ + s@ + "\n"@
}

/// A titled section listing `lines`, or nothing when there are none.
pub open spec fn section(title: Seq<char>, count: nat, lines: Seq<char>, tail: Seq<char>) -> Seq<char> {
    if count > 0 {
        title + lines + tail
    } else {
        seq![]
    }
}

/// Some flag is named `dry-run`.
pub open spec fn has_dry_run(c: Command) -> bool {
    exists|i: int| 0 <= i < c.flags@.len() && c.flags@[i].name@ == "dry-run"@
}

/// The name line: the canonical name, with the aliases in parentheses.
pub open spec fn name_line(c: Command) -> Seq<char> {
    if c.aliases@.len() == 0 {
        c.canonical@
    } else {
        c.canonical@ + " ("@ + join(views(c.aliases@), ", "@) + ")"@
    }
}

/// The sections of the plain-text help page of a command.
pub open spec fn help_parts(c: Command) -> Seq<Seq<char>> {
    seq![
        "NAME\n    "@ + name_line(c) + "\n\n"@,
        if c.summary@.len() > 0 {
            "SUMMARY\n    "@ + c.summary@ + "\n\n"@
        } else {
            seq![]
        },
        mutating_note(c),
        if c.description@.len() > 0 {
            "DESCRIPTION\n    "@ + c.description@ + "\n\n"@
        } else {
            seq![]
        },
        "USAGE\n    "@ + usage(c) + "\n\n"@,
        section(
            "ARGUMENTS\n"@,
            c.arguments@.len(),
            concat(c.arguments@.map_values(|a: Argument| help_arg_line(a))),
            "\n"@,
        ),
        section(
            "FLAGS\n"@,
            c.flags@.len(),
            concat(c.flags@.map_values(|f: Flag| help_flag_line(f))),
            "\n"@,
        ),
        section(
            "SUBCOMMANDS\n"@,
            c.subcommands@.len(),
            concat(c.subcommands@.map_values(|s: Command| help_sub_line(s))),
            "\n"@,
        ),
        section(
            "EXAMPLES\n"@,
            c.examples@.len(),
            concat(c.examples@.map_values(|e: Example| help_example(e))),
            ""@,
        ),
        section(
            "BEST PRACTICES\n"@,
            c.best_practices@.len(),
            concat(c.best_practices@.map_values(|s: String| help_bullet(s))),
            "\n"@,
        ),
        section(
            "ANTI-PATTERNS\n"@,
            c.anti_patterns@.len(),
            concat(c.anti_patterns@.map_values(|s: String| help_bullet(s))),
            "\n"@,
        ),
    ]
}

/// The warning shown for a mutating command, with a hint when it has no
/// `dry-run` flag.
pub open spec fn mutating_note(c: Command) -> Seq<char> {
    if c.mutating {
        "⚠  MUTATING COMMAND\n"@ + (if has_dry_run(c) {
            seq![]
        } else {
            "  This command modifies state. Consider adding --dry-run support.\n"@
        }) + "\n"@
    } else {
        seq![]
    }
}

/// The plain-text help page of a command.
pub open spec fn help_text(c: Command) -> Seq<char> {
    concat(help_parts(c))
}

fn help_arg_line_exec(a: &Argument) -> (r: String)
    ensures
        r@ == help_arg_line(*a),
{
    let mut s = String::from_str("    <");
    append_to(&mut s, &a.name);
    s.append(">  ");
    append_to(&mut s, &a.description);
    if a.required {
        s.append(" (required)");
    }
    s.append("\n");
    s
}

fn short_prefix_exec(f: &Flag) -> (r: String)
    ensures
        r@ == short_prefix(*f),
{
    let mut s = String::new();
    match f.short {
        Some(c) => {
            push_char(&mut s, '-');
            push_char(&mut s, c);
            s.append(", ");
            proof {
                assert(s@ =~= seq!['-', c] + ", "@);
            }
        },
        None => {},
    }
    s
}

fn help_flag_line_exec(f: &Flag) -> (r: String)
    ensures
        r@ == help_flag_line(*f),
{
    let mut s = String::from_str("    ");
    append_to(&mut s, &short_prefix_exec(f));
    s.append("--");
    append_to(&mut s, &f.name);
    s.append("  ");
    append_to(&mut s, &f.description);
    if f.required {
        s.append(" (required)");
    }
    s.append("\n");
    s
}

fn help_sub_line_exec(c: &Command) -> (r: String)
    ensures
        r@ == help_sub_line(*c),
{
    let mut s = String::from_str("    ");
    append_to(&mut s, &c.canonical);
    s.append("  ");
    append_to(&mut s, &c.summary);
    s.append("\n");
    s
}

fn help_example_exec(e: &Example) -> (r: String)
    ensures
        r@ == help_example(*e),
{
    let mut s = String::from_str("    # ");
    append_to(&mut s, &e.description);
    s.append("\n    ");
    append_to(&mut s, &e.command);
    s.append("\n");
    match &e.output {
        Some(o) => {
            s.append("    # Output: ");
            append_to(&mut s, o);
            s.append("\n");
        },
        None => {},
    }
    s.append("\n");
    s
}

fn help_bullet_exec(t: &String) -> (r: String)
    ensures
        r@ == help_bullet(*t),
{
    let mut s = String::from_str("    - ");
    append_to(&mut s, t);
    s.append("\n");
    s
}

/// Append a titled section if `count > 0`.
fn push_section(out: &mut String, title: &str, count: usize, lines: String, tail: &str)
    ensures
        final(out)@ == old(out)@ + section(title@, count as nat, lines@, tail@),
{
    if count > 0 {
        out.append(title);
        append_to(out, &lines);
        out.append(tail);
    }
}

fn any_dry_run(c: &Command) -> (r: bool)
    ensures
        r == has_dry_run(*c),
{
    let target = String::from_str("dry-run");
    let mut i: usize = 0;
    while i < c.flags.len()
        invariant
            i <= c.flags@.len(),
            target@ == "dry-run"@,
            forall|k: int| 0 <= k < i ==> c.flags@[k].name@ != "dry-run"@,
        decreases c.flags.len() - i,
    {
        if c.flags[i].name == target {
            return true;
        }
        i = i + 1;
    }
    false
}

fn name_part(c: &Command) -> (r: String)
    ensures
        r@ == "NAME\n    "@ + name_line(*c) + "\n\n"@,
{
    let mut line = c.canonical.clone();
    if c.aliases.len() > 0 {
        line.append(" (");
        append_to(&mut line, &join_strings(&c.aliases, &String::from_str(", ")));
        line.append(")");
    }
    let mut out = String::from_str("NAME\n    ");
    append_to(&mut out, &line);
    out.append("\n\n");
    out
}

/// `head` + `body` + `tail` when `body` is not empty.
fn labelled(head: &str, body: &String, tail: &str) -> (r: String)
    ensures
        r@ == (if body@.len() > 0 {
            head@ + body@ + tail@
        } else {
            seq![]
        }),
{
    let mut out = String::new();
    if !body.as_str().is_empty() {
        out.append(head);
        append_to(&mut out, body);
        out.append(tail);
    }
    out
}

fn mutating_note_exec(c: &Command) -> (r: String)
    ensures
        r@ == mutating_note(*c),
{
    let mut out = String::new();
    if c.mutating {
        out.append("⚠  MUTATING COMMAND\n");
        if !any_dry_run(c) {
            out.append("  This command modifies state. Consider adding --dry-run support.\n");
        }
        out.append("\n");
    }
    out
}

/// `title` + `lines` + `tail` when `count > 0`.
fn section_exec(title: &str, count: usize, lines: String, tail: &str) -> (r: String)
    ensures
        r@ == section(title@, count as nat, lines@, tail@),
{
    let mut out = String::new();
    push_section(&mut out, title, count, lines, tail);
    out
}

/// The plain-text help page of `command`: name (with aliases), summary,
/// a mutating-command warning, description, usage, and the argument, flag,
/// subcommand, example, best-practice and anti-pattern sections that apply.
pub fn render_help(command: &Command) -> (r: String)
    ensures
        r@ == help_text(*command),
{
    let c = command;
    let mut usage_part = String::from_str("USAGE\n    ");
    append_to(&mut usage_part, &build_usage(c));
    usage_part.append("\n\n");
    let p0 = name_part(c);
    let p1 = labelled("SUMMARY\n    ", &c.summary, "\n\n");
    let p2 = mutating_note_exec(c);
    let p3 = labelled("DESCRIPTION\n    ", &c.description, "\n\n");
    let l5 = concat_each(&c.arguments, help_arg_line_exec, Ghost(|a: Argument| help_arg_line(a)));
    let p5 = section_exec("ARGUMENTS\n", c.arguments.len(), l5, "\n");
    let l6 = concat_each(&c.flags, help_flag_line_exec, Ghost(|f: Flag| help_flag_line(f)));
    let p6 = section_exec("FLAGS\n", c.flags.len(), l6, "\n");
    let l7 = concat_each(&c.subcommands, help_sub_line_exec, Ghost(|s: Command| help_sub_line(s)));
    let p7 = section_exec("SUBCOMMANDS\n", c.subcommands.len(), l7, "\n");
    let l8 = concat_each(&c.examples, help_example_exec, Ghost(|e: Example| help_example(e)));
    let p8 = section_exec("EXAMPLES\n", c.examples.len(), l8, "");
    let l9 = concat_each(&c.best_practices, help_bullet_exec, Ghost(|s: String| help_bullet(s)));
    let p9 = section_exec("BEST PRACTICES\n", c.best_practices.len(), l9, "\n");
    let l10 = concat_each(&c.anti_patterns, help_bullet_exec, Ghost(|s: String| help_bullet(s)));
    let p10 = section_exec("ANTI-PATTERNS\n", c.anti_patterns.len(), l10, "\n");
    let parts: Vec<String> = vec![p0, p1, p2, p3, usage_part, p5, p6, p7, p8, p9, p10];
    proof {
        assert(views(parts@) =~= help_parts(*c));
    }
    concat_strings(&parts)
}

// ── Markdown ────────────────────────────────────────────────────────────────

/// `true` or `false`.
pub open spec fn bool_text(b: bool) -> Seq<char> {
    if b {
        "true"@
    } else {
        "false"@
    }
}

pub open spec fn md_arg_line(a: Argument) -> Seq<char> {
    "| `"@ + a.name@ + "` | "@ + a.description@ + " | "@ + bool_text(a.required) + " |\n"@
}

/// `` `-c` `` for a flag with a short form.
pub open spec fn md_short(f: Flag) -> Seq<char> {
    match f.short {
        Some(c) => seq!['`', '-', c, '`'],
        None => seq![],
    }
}

pub open spec fn md_flag_line(f: Flag) -> Seq<char> {
    "| `--"@ + f.name@ + "` | "@ + md_short(f) + " | "@ + f.description@ + " | "@ + bool_text(
        f.required,
    ) + " |\n"@
}

pub open spec fn md_sub_line(c: Command) -> Seq<char> {
    "- **"@ + c.canonical@ + "**: "@ + c.summary@ + "\n"@
}

pub open spec fn md_example(e: Example) -> Seq<char> {
    "### "@ + e.description@ + "\n\n```\n"@ + e.command@ + "\n```\n\n"@
}

pub open spec fn md_bullet(s: String) -> Seq<char> {
    "- "@ + s@ + "\n"@
}

/// The sections of the Markdown page of a command.
pub open spec fn markdown_parts(c: Command) -> Seq<Seq<char>> {
    seq![
        "# "@ + c.canonical@ + "\n\n"@,
        if c.summary@.len() > 0 {
            ""@ + c.summary@ + "\n\n"@
        } else {
            seq![]
        },
        if c.mutating {
            "> ⚠ **Mutating command** — this operation modifies state.\n\n"@
        } else {
            seq![]
        },
        if c.description@.len() > 0 {
            "## Description\n\n"@ + c.description@ + "\n\n"@
        } else {
            seq![]
        },
        "## Usage\n\n```\n"@ + usage(c) + "\n```\n\n"@,
        section(
            "## Arguments\n\n| Name | Description | Required |\n|------|-------------|----------|\n"@,
            c.arguments@.len(),
            concat(c.arguments@.map_values(|a: Argument| md_arg_line(a))),
            "\n"@,
        ),
        section(
            "## Flags\n\n| Flag | Short | Description | Required |\n|------|-------|-------------|----------|\n"@,
            c.flags@.len(),
            concat(c.flags@.map_values(|f: Flag| md_flag_line(f))),
            "\n"@,
        ),
        section(
            "## Subcommands\n\n"@,
            c.subcommands@.len(),
            concat(c.subcommands@.map_values(|s: Command| md_sub_line(s))),
            "\n"@,
        ),
        section(
            "## Examples\n\n"@,
            c.examples@.len(),
            concat(c.examples@.map_values(|e: Example| md_example(e))),
            ""@,
        ),
        section(
            "## Best Practices\n\n"@,
            c.best_practices@.len(),
            concat(c.best_practices@.map_values(|s: String| md_bullet(s))),
            "\n"@,
        ),
        section(
            "## Anti-Patterns\n\n"@,
            c.anti_patterns@.len(),
            concat(c.anti_patterns@.map_values(|s: String| md_bullet(s))),
            "\n"@,
        ),
    ]
}

/// The Markdown page of a command.
pub open spec fn markdown_text(c: Command) -> Seq<char> {
    concat(markdown_parts(c))
}

fn bool_text_exec(b: bool) -> (r: &'static str)
    ensures
        r@ == bool_text(b),
{
    if b {
        "true"
    } else {
        "false"
    }
}

fn md_arg_line_exec(a: &Argument) -> (r: String)
    ensures
        r@ == md_arg_line(*a),
{
    let mut s = String::from_str("| `");
    append_to(&mut s, &a.name);
    s.append("` | ");
    append_to(&mut s, &a.description);
    s.append(" | ");
    s.append(bool_text_exec(a.required));
    s.append(" |\n");
    s
}

fn md_short_exec(f: &Flag) -> (r: String)
    ensures
        r@ == md_short(*f),
{
    let mut s = String::new();
    match f.short {
        Some(c) => {
            push_char(&mut s, '`');
            push_char(&mut s, '-');
            push_char(&mut s, c);
            push_char(&mut s, '`');
            proof {
                assert(s@ =~= seq!['`', '-', c, '`']);
            }
        },
        None => {},
    }
    s
}

fn md_flag_line_exec(f: &Flag) -> (r: String)
    ensures
        r@ == md_flag_line(*f),
{
    let mut s = String::from_str("| `--");
    append_to(&mut s, &f.name);
    s.append("` | ");
    append_to(&mut s, &md_short_exec(f));
    s.append(" | ");
    append_to(&mut s, &f.description);
    s.append(" | ");
    s.append(bool_text_exec(f.required));
    s.append(" |\n");
    s
}

fn md_sub_line_exec(c: &Command) -> (r: String)
    ensures
        r@ == md_sub_line(*c),
{
    let mut s = String::from_str("- **");
    append_to(&mut s, &c.canonical);
    s.append("**: ");
    append_to(&mut s, &c.summary);
    s.append("\n");
    s
}

fn md_example_exec(e: &Example) -> (r: String)
    ensures
        r@ == md_example(*e),
{
    let mut s = String::from_str("### ");
    append_to(&mut s, &e.description);
    s.append("\n\n```\n");
    append_to(&mut s, &e.command);
    s.append("\n```\n\n");
    s
}

fn md_bullet_exec(t: &String) -> (r: String)
    ensures
        r@ == md_bullet(*t),
{
    let mut s = String::from_str("- ");
    append_to(&mut s, t);
    s.append("\n");
    s
}

/// The Markdown page of `command`: title, summary, a mutating-command
/// notice, description, usage block, and argument and flag tables,
/// subcommands, examples, best practices and anti-patterns where present.
pub fn render_markdown(command: &Command) -> (r: String)
    ensures
        r@ == markdown_text(*command),
{
    let c = command;
    let mut p0 = String::from_str("# ");
    append_to(&mut p0, &c.canonical);
    p0.append("\n\n");
    let p1 = labelled("", &c.summary, "\n\n");
    let mut p2 = String::new();
    if c.mutating {
        p2.append("> ⚠ **Mutating command** — this operation modifies state.\n\n");
    }
    let p3 = labelled("## Description\n\n", &c.description, "\n\n");
    let mut p4 = String::from_str("## Usage\n\n```\n");
    append_to(&mut p4, &build_usage(c));
    p4.append("\n```\n\n");
    let l5 = concat_each(&c.arguments, md_arg_line_exec, Ghost(|a: Argument| md_arg_line(a)));
    let p5 = section_exec(
        "## Arguments\n\n| Name | Description | Required |\n|------|-------------|----------|\n",
        c.arguments.len(),
        l5,
        "\n",
    );
    let l6 = concat_each(&c.flags, md_flag_line_exec, Ghost(|f: Flag| md_flag_line(f)));
    let p6 = section_exec(
        "## Flags\n\n| Flag | Short | Description | Required |\n|------|-------|-------------|----------|\n",
        c.flags.len(),
        l6,
        "\n",
    );
    let l7 = concat_each(&c.subcommands, md_sub_line_exec, Ghost(|s: Command| md_sub_line(s)));
    let p7 = section_exec("## Subcommands\n\n", c.subcommands.len(), l7, "\n");
    let l8 = concat_each(&c.examples, md_example_exec, Ghost(|e: Example| md_example(e)));
    let p8 = section_exec("## Examples\n\n", c.examples.len(), l8, "");
    let l9 = concat_each(&c.best_practices, md_bullet_exec, Ghost(|s: String| md_bullet(s)));
    let p9 = section_exec("## Best Practices\n\n", c.best_practices.len(), l9, "\n");
    let l10 = concat_each(&c.anti_patterns, md_bullet_exec, Ghost(|s: String| md_bullet(s)));
    let p10 = section_exec("## Anti-Patterns\n\n", c.anti_patterns.len(), l10, "\n");
    let parts: Vec<String> = vec![p0, p1, p2, p3, p4, p5, p6, p7, p8, p9, p10];
    proof {
        assert(views(parts@) =~= markdown_parts(*c));
    }
    concat_strings(&parts)
}

// ── Lists and messages ──────────────────────────────────────────────────────

pub open spec fn list_line(c: Command) -> Seq<char> {
    "  "@ + c.canonical@ + "  "@ + c.summary@ + "\n"@
}

/// One line per command: its canonical name and summary.
pub fn render_subcommand_list(commands: &[Command]) -> (r: String)
    ensures
        r@ == concat(commands@.map_values(|c: Command| list_line(c))),
{
    let mut out = String::new();
    let mut i: usize = 0;
    while i < commands.len()
        invariant
            i <= commands@.len(),
            out@ == concat(commands@.map_values(|c: Command| list_line(c)).take(i as int)),
        decreases commands.len() - i,
    {
        proof {
            crate::text::lemma_concat_take(commands@.map_values(|c: Command| list_line(c)), i as int);
        }
        let c = &commands[i];
        let mut s = String::from_str("  ");
        append_to(&mut s, &c.canonical);
        s.append("  ");
        append_to(&mut s, &c.summary);
        s.append("\n");
        append_to(&mut out, &s);
        i = i + 1;
    }
    proof {
        crate::text::lemma_concat_all(commands@.map_values(|c: Command| list_line(c)));
    }
    out
}

/// The message for an ambiguous word: the word, then one `  - candidate`
/// line per candidate.
pub open spec fn ambiguity_text(input: Seq<char>, candidates: Seq<Seq<char>>) -> Seq<char> {
    "Ambiguous command \""@ + input + "\". Did you mean one of:\n"@ + join(
        candidates.map_values(|c: Seq<char>| "  - "@ + c),
        "\n"@,
    )
}

/// The message for an ambiguous word, e.g.
/// `Ambiguous command "l". Did you mean one of:` followed by the candidates.
pub fn render_ambiguity(input: &str, candidates: &[String]) -> (r: String)
    ensures
        r@ == ambiguity_text(input@, views(candidates@)),
{
    let mut lines: Vec<String> = Vec::new();
    let mut i: usize = 0;
    while i < candidates.len()
        invariant
            i <= candidates@.len(),
            views(lines@) == views(candidates@).map_values(|c: Seq<char>| "  - "@ + c).take(i as int),
        decreases candidates.len() - i,
    {
        let mut s = String::from_str("  - ");
        append_to(&mut s, &candidates[i]);
        let ghost prev = lines@;
        lines.push(s);
        proof {
            assert(views(lines@) =~= views(prev).push(s@));
            assert(views(lines@) =~= views(candidates@).map_values(|c: Seq<char>| "  - "@ + c).take(i + 1));
        }
        i = i + 1;
    }
    proof {
        assert(views(candidates@).map_values(|c: Seq<char>| "  - "@ + c).take(candidates@.len() as int)
            =~= views(candidates@).map_values(|c: Seq<char>| "  - "@ + c));
    }
    let mut out = String::from_str("Ambiguous command \"");
    out.append(input);
    out.append("\". Did you mean one of:\n");
    append_to(&mut out, &join_strings(&lines, &String::from_str("\n")));
    out
}

/// The message for a word that did not resolve.
pub open spec fn resolve_error_text(e: crate::resolver::ResolveErrorView) -> Seq<char> {
    match e {
        crate::resolver::ResolveErrorView::Ambiguous(input, candidates) => ambiguity_text(
            input,
            candidates,
        ),
        crate::resolver::ResolveErrorView::Unknown(input, suggestions) => if suggestions.len() > 0 {
            "Unknown command: `"@ + input + "`. Did you mean: "@ + join(suggestions, ", "@) + "?"@
        } else {
            "Unknown command: `"@ + input + "`"@
        },
    }
}

/// The message for a word that did not resolve: the ambiguity message, or
/// `Unknown command` with suggestions when there are any.
pub fn render_resolve_error(error: &ResolveError) -> (r: String)
    ensures
        r@ == resolve_error_text(error@),
{
    match error {
        ResolveError::Ambiguous { input, candidates } => render_ambiguity(
            input.as_str(),
            candidates.as_slice(),
        ),
        ResolveError::Unknown { input, suggestions } => {
            let mut out = String::from_str("Unknown command: `");
            append_to(&mut out, input);
            if suggestions.len() > 0 {
                out.append("`. Did you mean: ");
                append_to(&mut out, &join_strings(suggestions, &String::from_str(", ")));
                out.append("?");
            } else {
                out.append("`");
            }
            out
        },
    }
}

// ── Skill files ─────────────────────────────────────────────────────────────

pub open spec fn yes_no(b: bool) -> Seq<char> {
    if b {
        "yes"@
    } else {
        "no"@
    }
}

pub open spec fn skill_arg_line(a: Argument) -> Seq<char> {
    "| "@ + a.name@ + " | "@ + yes_no(a.required) + " | "@ + a.description@ + " |\n"@
}

/// `-c`, or a dash when the flag has no short form.
pub open spec fn skill_short(f: Flag) -> Seq<char> {
    match f.short {
        Some(c) => seq!['-', c],
        None => "—"@,
    }
}

/// The default value, or a dash when there is none.
pub open spec fn skill_default(f: Flag) -> Seq<char> {
    match f.default {
        Some(d) => d@,
        None => "—"@,
    }
}

pub open spec fn skill_flag_line(f: Flag) -> Seq<char> {
    "| --"@ + f.name@ + " | "@ + skill_short(f) + " | "@ + yes_no(f.required) + " | "@
        + skill_default(f) + " | "@ + f.description@ + " |\n"@
}

pub open spec fn skill_example(e: Example) -> Seq<char> {
    "```\n"@ + e.command@ + "\n```\n"@ + "> "@ + e.description@ + "\n\n"@
}

pub open spec fn skill_sub_line(c: Command) -> Seq<char> {
    "- `"@ + c.canonical@ + "` — "@ + c.summary@ + "\n"@
}

/// The sections of the skill file of a command.
pub open spec fn skill_parts(c: Command) -> Seq<Seq<char>> {
    seq![
        "# Skill: "@ + c.canonical@ + "\n\n"@,
        if c.summary@.len() > 0 {
            ""@ + c.summary@ + "\n\n"@
        } else {
            seq![]
        },
        if c.description@.len() > 0 {
            ""@ + c.description@ + "\n\n"@
        } else {
            seq![]
        },
        section(
            "## Safe Usage\n\nAlways prefer:\n"@,
            c.best_practices@.len(),
            concat(c.best_practices@.map_values(|s: String| md_bullet(s))),
            "\n"@,
        ),
        section(
            "## Avoid\n\n"@,
            c.anti_patterns@.len(),
            concat(c.anti_patterns@.map_values(|s: String| md_bullet(s))),
            "\n"@,
        ),
        section(
            "## Arguments\n\n| Name | Required | Description |\n|------|----------|-------------|\n"@,
            c.arguments@.len(),
            concat(c.arguments@.map_values(|a: Argument| skill_arg_line(a))),
            "\n"@,
        ),
        section(
            "## Flags\n\n| Flag | Short | Required | Default | Description |\n|------|-------|----------|---------|-------------|\n"@,
            c.flags@.len(),
            concat(c.flags@.map_values(|f: Flag| skill_flag_line(f))),
            "\n"@,
        ),
        section(
            "## Examples\n\n"@,
            c.examples@.len(),
            concat(c.examples@.map_values(|e: Example| skill_example(e))),
            ""@,
        ),
        section(
            "## Subcommands\n\n"@,
            c.subcommands@.len(),
            concat(c.subcommands@.map_values(|s: Command| skill_sub_line(s))),
            "\n"@,
        ),
    ]
}

/// The skill file of a command.
pub open spec fn skill_text(c: Command) -> Seq<char> {
    concat(skill_parts(c))
}

fn yes_no_exec(b: bool) -> (r: &'static str)
    ensures
        r@ == yes_no(b),
{
    if b {
        "yes"
    } else {
        "no"
    }
}

fn skill_arg_line_exec(a: &Argument) -> (r: String)
    ensures
        r@ == skill_arg_line(*a),
{
    let mut s = String::from_str("| ");
    append_to(&mut s, &a.name);
    s.append(" | ");
    s.append(yes_no_exec(a.required));
    s.append(" | ");
    append_to(&mut s, &a.description);
    s.append(" |\n");
    s
}

fn skill_flag_line_exec(f: &Flag) -> (r: String)
    ensures
        r@ == skill_flag_line(*f),
{
    let mut s = String::from_str("| --");
    append_to(&mut s, &f.name);
    s.append(" | ");
    match f.short {
        Some(c) => {
            let ghost before = s@;
            push_char(&mut s, '-');
            push_char(&mut s, c);
            proof {
                assert(s@ =~= before + seq!['-', c]);
            }
        },
        None => {
            s.append("—");
        },
    }
    s.append(" | ");
    s.append(yes_no_exec(f.required));
    s.append(" | ");
    match &f.default {
        Some(d) => append_to(&mut s, d),
        None => s.append("—"),
    }
    s.append(" | ");
    append_to(&mut s, &f.description);
    s.append(" |\n");
    s
}

fn skill_example_exec(e: &Example) -> (r: String)
    ensures
        r@ == skill_example(*e),
{
    let mut s = String::from_str("```\n");
    append_to(&mut s, &e.command);
    s.append("\n```\n");
    s.append("> ");
    append_to(&mut s, &e.description);
    s.append("\n\n");
    s
}

fn skill_sub_line_exec(c: &Command) -> (r: String)
    ensures
        r@ == skill_sub_line(*c),
{
    let mut s = String::from_str("- `");
    append_to(&mut s, &c.canonical);
    s.append("` — ");
    append_to(&mut s, &c.summary);
    s.append("\n");
    s
}

/// The skill file of `command`: heading, summary, description, safe-usage
/// and avoid lists, argument and flag tables, examples and subcommands.
pub fn render_skill_file(command: &Command) -> (r: String)
    ensures
        r@ == skill_text(*command),
{
    let c = command;
    let mut p0 = String::from_str("# Skill: ");
    append_to(&mut p0, &c.canonical);
    p0.append("\n\n");
    let p1 = labelled("", &c.summary, "\n\n");
    let p2 = labelled("", &c.description, "\n\n");
    let l3 = concat_each(&c.best_practices, md_bullet_exec, Ghost(|s: String| md_bullet(s)));
    let p3 = section_exec("## Safe Usage\n\nAlways prefer:\n", c.best_practices.len(), l3, "\n");
    let l4 = concat_each(&c.anti_patterns, md_bullet_exec, Ghost(|s: String| md_bullet(s)));
    let p4 = section_exec("## Avoid\n\n", c.anti_patterns.len(), l4, "\n");
    let l5 = concat_each(&c.arguments, skill_arg_line_exec, Ghost(|a: Argument| skill_arg_line(a)));
    let p5 = section_exec(
        "## Arguments\n\n| Name | Required | Description |\n|------|----------|-------------|\n",
        c.arguments.len(),
        l5,
        "\n",
    );
    let l6 = concat_each(&c.flags, skill_flag_line_exec, Ghost(|f: Flag| skill_flag_line(f)));
    let p6 = section_exec(
        "## Flags\n\n| Flag | Short | Required | Default | Description |\n|------|-------|----------|---------|-------------|\n",
        c.flags.len(),
        l6,
        "\n",
    );
    let l7 = concat_each(&c.examples, skill_example_exec, Ghost(|e: Example| skill_example(e)));
    let p7 = section_exec("## Examples\n\n", c.examples.len(), l7, "");
    let l8 = concat_each(&c.subcommands, skill_sub_line_exec, Ghost(|s: Command| skill_sub_line(s)));
    let p8 = section_exec("## Subcommands\n\n", c.subcommands.len(), l8, "\n");
    let parts: Vec<String> = vec![p0, p1, p2, p3, p4, p5, p6, p7, p8];
    proof {
        assert(views(parts@) =~= skill_parts(*c));
    }
    concat_strings(&parts)
}

/// The skill files of every command of the tree (depth-first), separated
/// by `---` lines.
pub open spec fn skill_files_text(cmds: Seq<Command>) -> Seq<char> {
    join(
        walk_all(cmds, seq![]).map_values(|e: (Seq<Seq<char>>, Command)| skill_text(e.1)),
        "---\n\n"@,
    )
}

/// The skill files of every command in the registry, depth-first, joined by
/// `---` separators.
pub fn render_skill_files(registry: &Registry) -> (r: String)
    ensures
        r@ == skill_files_text(registry.commands@),
{
    let entries = registry.iter_all_recursive();
    let mut parts: Vec<String> = Vec::new();
    let mut i: usize = 0;
    while i < entries.len()
        invariant
            i <= entries@.len(),
            entries_view(entries@) == walk_all(registry.commands@, seq![]),
            views(parts@) == walk_all(registry.commands@, seq![]).map_values(
                |e: (Seq<Seq<char>>, Command)| skill_text(e.1),
            ).take(i as int),
        decreases entries.len() - i,
    {
        let t = render_skill_file(entries[i].command);
        let ghost prev = parts@;
        parts.push(t);
        proof {
            assert(entries_view(entries@)[i as int].1 == *entries@[i as int].command);
            assert(views(parts@) =~= views(prev).push(t@));
            assert(views(parts@) =~= walk_all(registry.commands@, seq![]).map_values(
                |e: (Seq<Seq<char>>, Command)| skill_text(e.1),
            ).take(i + 1));
        }
        i = i + 1;
    }
    proof {
        assert(walk_all(registry.commands@, seq![]).map_values(
            |e: (Seq<Seq<char>>, Command)| skill_text(e.1),
        ).take(entries@.len() as int) =~= walk_all(registry.commands@, seq![]).map_values(
            |e: (Seq<Seq<char>>, Command)| skill_text(e.1),
        ));
    }
    join_strings(&parts, &String::from_str("---\n\n"))
}

// ── Documentation page ──────────────────────────────────────────────────────

/// The table-of-contents line of an entry: indented two spaces per level
/// below the top, linking its space-separated path to its dash-separated,
/// lowercased anchor.
pub open spec fn toc_line(path: Seq<Seq<char>>) -> Seq<char> {
    let dotted = join(path, seq!['.']);
    repeat("  "@, if path.len() > 0 { (path.len() - 1) as nat } else { 0 }) + "- ["@ + replace_with(
        dotted,
        '.',
        " "@,
    ) + "](#"@ + lowercase(replace_with(dotted, '.', "-"@)) + ")\n"@
}

/// The documentation page: a table of contents of every command of the
/// tree, then each command's Markdown page after a `---` line.
pub open spec fn docs_text(cmds: Seq<Command>) -> Seq<char> {
    let entries = walk_all(cmds, seq![]);
    "# Commands\n\n"@ + concat(entries.map_values(|e: (Seq<Seq<char>>, Command)| toc_line(e.0)))
        + concat(
        entries.map_values(|e: (Seq<Seq<char>>, Command)| "\n---\n\n"@ + markdown_text(e.1)),
    )
}

fn toc_line_exec(entry: &CommandEntry) -> (r: String)
    ensures
        r@ == toc_line(views(entry.path@)),
{
    let dotted = entry.path_str();
    let depth = entry.path.len();
    let indent = repeat_str("  ", if depth > 0 { depth - 1 } else { 0 });
    let label = replace_char_with(dotted.as_str(), '.', " ");
    let anchor = to_lowercase(replace_char_with(dotted.as_str(), '.', "-").as_str());
    let mut out = indent;
    out.append("- [");
    append_to(&mut out, &label);
    out.append("](#");
    append_to(&mut out, &anchor);
    out.append(")\n");
    out
}

/// The documentation page of every command in the registry: a table of
/// contents, then each command's Markdown page.
pub fn render_docs(registry: &Registry) -> (r: String)
    ensures
        r@ == docs_text(registry.commands@),
{
    let entries = registry.iter_all_recursive();
    let ghost w = walk_all(registry.commands@, seq![]);
    let mut toc = String::new();
    let mut pages = String::new();
    let mut i: usize = 0;
    while i < entries.len()
        invariant
            i <= entries@.len(),
            entries_view(entries@) == w,
            w == walk_all(registry.commands@, seq![]),
            toc@ == concat(w.map_values(|e: (Seq<Seq<char>>, Command)| toc_line(e.0)).take(i as int)),
            pages@ == concat(w.map_values(|e: (Seq<Seq<char>>, Command)| "\n---\n\n"@ + markdown_text(e.1)).take(i as int)),
        decreases entries.len() - i,
    {
        proof {
            assert(entries_view(entries@)[i as int] == (views(entries@[i as int].path@), *entries@[i as int].command));
            crate::text::lemma_concat_take(w.map_values(|e: (Seq<Seq<char>>, Command)| toc_line(e.0)), i as int);
            crate::text::lemma_concat_take(w.map_values(|e: (Seq<Seq<char>>, Command)| "\n---\n\n"@ + markdown_text(e.1)), i as int);
        }
        append_to(&mut toc, &toc_line_exec(&entries[i]));
        let mut page = String::from_str("\n---\n\n");
        append_to(&mut page, &render_markdown(entries[i].command));
        append_to(&mut pages, &page);
        i = i + 1;
    }
    proof {
        crate::text::lemma_concat_all(w.map_values(|e: (Seq<Seq<char>>, Command)| toc_line(e.0)));
        crate::text::lemma_concat_all(w.map_values(|e: (Seq<Seq<char>>, Command)| "\n---\n\n"@ + markdown_text(e.1)));
    }
    let mut out = String::from_str("# Commands\n\n");
    append_to(&mut out, &toc);
    append_to(&mut out, &pages);
    out
}

// ── Shell completion ────────────────────────────────────────────────────────

/// A shell for which a completion script can be generated.
#[derive(Debug, Clone, Copy, PartialEq, Eq, Hash, Structural)]
pub enum Shell {
    Bash,
    Zsh,
    Fish,
}

/// The canonical names of a list of commands joined by spaces.
pub open spec fn names_joined(cmds: Seq<Command>) -> Seq<char> {
    join(cmds.map_values(|c: Command| c.canonical@), " "@)
}

/// The bash `case` arm completing the flags of one command, if it has any.
pub open spec fn bash_case(path: Seq<Seq<char>>, c: Command) -> Seq<char> {
    if c.flags@.len() > 0 {
        "        "@ + join(path, seq!['.']) + ")\n            COMPREPLY=($(compgen -W \""@ + join(
            c.flags@.map_values(|f: Flag| "--"@ + f.name@),
            " "@,
        ) + "\" -- \"$cur\"))\n            return\n            ;;\n"@
    } else {
        seq![]
    }
}

/// The bash completion script.
pub open spec fn bash_completion(program: Seq<char>, cmds: Seq<Command>) -> Seq<char> {
    let func = "_"@ + replace_with(program, '-', "_"@) + "_completions"@;
    let cases = concat(
        walk_all(cmds, seq![]).map_values(|e: (Seq<Seq<char>>, Command)| bash_case(e.0, e.1)),
    );
    concat(
        seq![
            "# "@,
            program,
            " bash completion\n# Source this file or add to ~/.bashrc:\n#   source <("@,
            program,
            " completion bash)\n\n"@,
            func,
            "() {\n    local cur prev words cword\n    _init_completion 2>/dev/null || {\n        cur=\"${COMP_WORDS[COMP_CWORD]}\"\n        prev=\"${COMP_WORDS[COMP_CWORD-1]}\"\n    }\n\n    local cmd=\"${COMP_WORDS[1]}\"\n\n    case \"$cmd\" in\n"@,
            cases,
            "        *)\n            COMPREPLY=($(compgen -W \""@,
            names_joined(cmds),
            "\" -- \"$cur\"))\n            ;;\n    esac\n}\n\ncomplete -F "@,
            func,
            " "@,
            program,
            "\n"@,
        ],
    )
}

/// The bash completion script offers every top-level command name, has a
/// `case` arm listing the `--` flags of every command (at any depth, keyed
/// by its dotted path) that has flags, and registers its completion function
/// for the program.
pub proof fn lemma_bash_completion(program: Seq<char>, cmds: Seq<Command>)
    ensures
        contains_seq(bash_completion(program, cmds), names_joined(cmds)),
        forall|k: int|
            0 <= k < walk_all(cmds, seq![]).len() ==> contains_seq(
                bash_completion(program, cmds),
                bash_case(#[trigger] walk_all(cmds, seq![])[k].0, walk_all(cmds, seq![])[k].1),
            ),
        contains_seq(
            bash_completion(program, cmds),
            "complete -F "@ + ("_"@ + replace_with(program, '-', "_"@) + "_completions"@) + " "@ + program,
        ),
{
    let func = "_"@ + replace_with(program, '-', "_"@) + "_completions"@;
    let w = walk_all(cmds, seq![]);
    let cs = w.map_values(|e: (Seq<Seq<char>>, Command)| bash_case(e.0, e.1));
    let cases = concat(cs);
    let parts = seq![
        "# "@,
        program,
        " bash completion\n# Source this file or add to ~/.bashrc:\n#   source <("@,
        program,
        " completion bash)\n\n"@,
        func,
        "() {\n    local cur prev words cword\n    _init_completion 2>/dev/null || {\n        cur=\"${COMP_WORDS[COMP_CWORD]}\"\n        prev=\"${COMP_WORDS[COMP_CWORD-1]}\"\n    }\n\n    local cmd=\"${COMP_WORDS[1]}\"\n\n    case \"$cmd\" in\n"@,
        cases,
        "        *)\n            COMPREPLY=($(compgen -W \""@,
        names_joined(cmds),
        "\" -- \"$cur\"))\n            ;;\n    esac\n}\n\ncomplete -F "@,
        func,
        " "@,
        program,
        "\n"@,
    ];
    let script = bash_completion(program, cmds);
    assert(script == concat(parts));
    lemma_concat_contains(parts, 9);
    lemma_concat_contains(parts, 7);
    assert forall|k: int| 0 <= k < w.len() implies contains_seq(script, bash_case(#[trigger] w[k].0, w[k].1)) by {
        lemma_concat_contains(cs, k);
        assert(cs[k] == bash_case(w[k].0, w[k].1));
        let x = concat(cs.take(k)).len() as int;
        let y = concat(parts.take(7)).len() as int;
        assert(occurs_at(cases, cs[k], x));
        assert(occurs_at(script, cases, y));
        assert(script.subrange(y + x, y + x + cs[k].len()) =~= cases.subrange(x, x + cs[k].len()));
        assert(occurs_at(script, cs[k], y + x));
    }
    // The registration line: parts 10 to 13 in a row.
    let tail = "complete -F "@ + func + " "@ + program;
    lemma_concat_take(parts, 10);
    lemma_concat_take(parts, 11);
    lemma_concat_take(parts, 12);
    lemma_concat_take(parts, 13);
    lemma_concat_prefix(parts, 14, parts.len() as int);
    lemma_concat_all(parts);
    let p10 = parts[10];
    let pre = concat(parts.take(10));
    let upto = concat(parts.take(14));
    assert(upto == pre + p10 + func + " "@ + program);
    let intro = "\" -- \"$cur\"))\n            ;;\n    esac\n}\n\n"@;
    reveal_strlit("\" -- \"$cur\"))\n            ;;\n    esac\n}\n\ncomplete -F ");
    reveal_strlit("\" -- \"$cur\"))\n            ;;\n    esac\n}\n\n");
    reveal_strlit("complete -F ");
    assert(p10 =~= intro + "complete -F "@);
    let at: int = (pre.len() + intro.len()) as int;
    let tl: int = tail.len() as int;
    assert(upto.subrange(at, at + tl) =~= tail);
    assert(script.subrange(0, upto.len() as int) == upto);
    assert(script.subrange(at, at + tl) =~= upto.subrange(at, at + tl));
    assert(occurs_at(script, tail, at));
}

/// The zsh line describing a top-level command.
pub open spec fn zsh_command_line(c: Command) -> Seq<char> {
    "    '"@ + c.canonical@ + ":"@ + (if c.summary@.len() == 0 {
        c.canonical@
    } else {
        c.summary@
    }) + "'\n"@
}

/// The zsh argument spec of a flag.
pub open spec fn zsh_flag_spec(f: Flag) -> Seq<char> {
    let desc = if f.description@.len() == 0 {
        f.name@
    } else {
        f.description@
    };
    if f.takes_value {
        "    '--"@ + f.name@ + "["@ + desc + "]:value:_default'\n"@
    } else {
        "    '--"@ + f.name@ + "["@ + desc + "]'\n"@
    }
}

/// The zsh `case` arm of one command, if it has flags or arguments.
pub open spec fn zsh_case(path: Seq<Seq<char>>, c: Command) -> Seq<char> {
    if c.flags@.len() == 0 && c.arguments@.len() == 0 {
        seq![]
    } else {
        "  ("@ + replace_with(join(path, seq!['.']), '.', "-"@) + ")\n    _arguments \\\n"@ + concat(
            c.flags@.map_values(|f: Flag| zsh_flag_spec(f)),
        ) + "  ;;\n"@
    }
}

/// The zsh completion script.
pub open spec fn zsh_completion(program: Seq<char>, cmds: Seq<Command>) -> Seq<char> {
    let subcases = concat(
        walk_all(cmds, seq![]).map_values(|e: (Seq<Seq<char>>, Command)| zsh_case(e.0, e.1)),
    );
    concat(
        seq![
            "#compdef "@,
            program,
            "\n# "@,
            program,
            " zsh completion\n\n_"@,
            program,
            "() {\n  local state\n\n  _arguments \\\n    '1: :"@,
            program,
            "_commands' \\\n    '*:: :->subcommand'\n\n  case $state in\n    subcommand)\n      case $words[1] in\n"@,
            subcases,
            "      esac\n  esac\n}\n\n_"@,
            program,
            "_commands() {\n  local -a commands\n  commands=(\n"@,
            concat(cmds.map_values(|c: Command| zsh_command_line(c))),
            "  )\n  _describe 'command' commands\n}\n\n_"@,
            program,
            "\n"@,
        ],
    )
}

/// ` -d '<text>'` with single quotes escaped, or nothing for empty text.
pub open spec fn fish_desc(text: Seq<char>) -> Seq<char> {
    if text.len() == 0 {
        seq![]
    } else {
        " -d '"@ + replace_with(text, '\'', "\\'"@) + "'"@
    }
}

pub open spec fn fish_top(program: Seq<char>, c: Command) -> Seq<char> {
    "complete -c "@ + program + " -f -n '__fish_use_subcommand' -a '"@ + c.canonical@ + "'"@
        + fish_desc(c.summary@) + "\n"@
}

pub open spec fn fish_flag(program: Seq<char>, c: Command, f: Flag) -> Seq<char> {
    "complete -c "@ + program + " -n '__fish_seen_subcommand_from "@ + c.canonical@ + "' -l '"@
        + f.name@ + "'"@ + (if f.takes_value {
        " -r"@
    } else {
        seq![]
    }) + fish_desc(f.description@) + "\n"@
}

pub open spec fn fish_flags_of(program: Seq<char>, c: Command) -> Seq<char> {
    concat(c.flags@.map_values(|f: Flag| fish_flag(program, c, f)))
}

/// The fish completion script.
pub open spec fn fish_completion(program: Seq<char>, cmds: Seq<Command>) -> Seq<char> {
    "# "@ + program + " fish completion\n# Add to ~/.config/fish/completions/"@ + program
        + ".fish\n\n"@ + concat(cmds.map_values(|c: Command| fish_top(program, c))) + "\n"@
        + concat(
        walk_all(cmds, seq![]).map_values(
            |e: (Seq<Seq<char>>, Command)| fish_flags_of(program, e.1),
        ),
    )
}

/// The completion script for `shell`.
pub open spec fn completion_text(shell: Shell, program: Seq<char>, cmds: Seq<Command>) -> Seq<char> {
    match shell {
        Shell::Bash => bash_completion(program, cmds),
        Shell::Zsh => zsh_completion(program, cmds),
        Shell::Fish => fish_completion(program, cmds),
    }
}

fn long_flag_word(f: &Flag) -> (r: String)
    ensures
        r@ == "--"@ + f.name@,
{
    let mut s = String::from_str("--");
    append_to(&mut s, &f.name);
    s
}

fn bash_case_exec(entry: &CommandEntry) -> (r: String)
    ensures
        r@ == bash_case(views(entry.path@), *entry.command),
{
    let c = entry.command;
    let mut s = String::new();
    if c.flags.len() > 0 {
        let words = map_each(&c.flags, long_flag_word, Ghost(|f: Flag| "--"@ + f.name@));
        s.append("        ");
        append_to(&mut s, &entry.path_str());
        s.append(")\n            COMPREPLY=($(compgen -W \"");
        append_to(&mut s, &join_strings(&words, &String::from_str(" ")));
        s.append("\" -- \"$cur\"))\n            return\n            ;;\n");
    }
    s
}

fn canonical_of(c: &Command) -> (r: String)
    ensures
        r@ == c.canonical@,
{
    c.canonical.clone()
}

/// Concatenate a per-entry rendering over the walk of the registry.
fn over_entries<F: Fn(&CommandEntry) -> String>(
    registry: &Registry,
    render: F,
    Ghost(spec): Ghost<spec_fn((Seq<Seq<char>>, Command)) -> Seq<char>>,
) -> (r: String)
    requires
        forall|x: &CommandEntry| #[trigger] render.requires((x,)),
        forall|x: &CommandEntry, s: String|
            render.ensures((x,), s) ==> s@ == spec((views(x.path@), *x.command)),
    ensures
        r@ == concat(walk_all(registry.commands@, seq![]).map_values(spec)),
{
    let entries = registry.iter_all_recursive();
    let ghost w = walk_all(registry.commands@, seq![]);
    let mut out = String::new();
    let mut i: usize = 0;
    while i < entries.len()
        invariant
            i <= entries@.len(),
            entries_view(entries@) == w,
            forall|x: &CommandEntry| #[trigger] render.requires((x,)),
            forall|x: &CommandEntry, s: String|
                render.ensures((x,), s) ==> s@ == spec((views(x.path@), *x.command)),
            out@ == concat(w.map_values(spec).take(i as int)),
        decreases entries.len() - i,
    {
        proof {
            assert(entries_view(entries@)[i as int] == (views(entries@[i as int].path@), *entries@[i as int].command));
            crate::text::lemma_concat_take(w.map_values(spec), i as int);
        }
        let t = render(&entries[i]);
        append_to(&mut out, &t);
        i = i + 1;
    }
    proof {
        crate::text::lemma_concat_all(w.map_values(spec));
    }
    out
}

fn render_completion_bash(program: &str, registry: &Registry) -> (r: String)
    ensures
        r@ == bash_completion(program@, registry.commands@),
{
    let mut func = String::from_str("_");
    append_to(&mut func, &replace_char_with(program, '-', "_"));
    func.append("_completions");
    let cases = over_entries(
        registry,
        bash_case_exec,
        Ghost(|e: (Seq<Seq<char>>, Command)| bash_case(e.0, e.1)),
    );
    let names = map_each(&registry.commands, canonical_of, Ghost(|c: Command| c.canonical@));
    let top = join_strings(&names, &String::from_str(" "));
    let prog = String::from_str(program);
    let parts: Vec<String> = vec![
        String::from_str("# "),
        String::from_str(program),
        String::from_str(" bash completion\n# Source this file or add to ~/.bashrc:\n#   source <("),
        String::from_str(program),
        String::from_str(" completion bash)\n\n"),
        func.clone(),
        String::from_str("() {\n    local cur prev words cword\n    _init_completion 2>/dev/null || {\n        cur=\"${COMP_WORDS[COMP_CWORD]}\"\n        prev=\"${COMP_WORDS[COMP_CWORD-1]}\"\n    }\n\n    local cmd=\"${COMP_WORDS[1]}\"\n\n    case \"$cmd\" in\n"),
        cases,
        String::from_str("        *)\n            COMPREPLY=($(compgen -W \""),
        top,
        String::from_str("\" -- \"$cur\"))\n            ;;\n    esac\n}\n\ncomplete -F "),
        func,
        String::from_str(" "),
        prog,
        String::from_str("\n"),
    ];
    proof {
        assert(views(parts@) =~= seq![
            "# "@,
            program@,
            " bash completion\n# Source this file or add to ~/.bashrc:\n#   source <("@,
            program@,
            " completion bash)\n\n"@,
            "_"@ + replace_with(program@, '-', "_"@) + "_completions"@,
            "() {\n    local cur prev words cword\n    _init_completion 2>/dev/null || {\n        cur=\"${COMP_WORDS[COMP_CWORD]}\"\n        prev=\"${COMP_WORDS[COMP_CWORD-1]}\"\n    }\n\n    local cmd=\"${COMP_WORDS[1]}\"\n\n    case \"$cmd\" in\n"@,
            concat(walk_all(registry.commands@, seq![]).map_values(|e: (Seq<Seq<char>>, Command)| bash_case(e.0, e.1))),
            "        *)\n            COMPREPLY=($(compgen -W \""@,
            names_joined(registry.commands@),
            "\" -- \"$cur\"))\n            ;;\n    esac\n}\n\ncomplete -F "@,
            "_"@ + replace_with(program@, '-', "_"@) + "_completions"@,
            " "@,
            program@,
            "\n"@,
        ]);
    }
    concat_strings(&parts)
}

fn zsh_command_line_exec(c: &Command) -> (r: String)
    ensures
        r@ == zsh_command_line(*c),
{
    let mut s = String::from_str("    '");
    append_to(&mut s, &c.canonical);
    s.append(":");
    if c.summary.as_str().is_empty() {
        append_to(&mut s, &c.canonical);
    } else {
        append_to(&mut s, &c.summary);
    }
    s.append("'\n");
    s
}

fn zsh_flag_spec_exec(f: &Flag) -> (r: String)
    ensures
        r@ == zsh_flag_spec(*f),
{
    let mut s = String::from_str("    '--");
    append_to(&mut s, &f.name);
    s.append("[");
    if f.description.as_str().is_empty() {
        append_to(&mut s, &f.name);
    } else {
        append_to(&mut s, &f.description);
    }
    if f.takes_value {
        s.append("]:value:_default'\n");
    } else {
        s.append("]'\n");
    }
    s
}

fn zsh_case_exec(entry: &CommandEntry) -> (r: String)
    ensures
        r@ == zsh_case(views(entry.path@), *entry.command),
{
    let c = entry.command;
    let mut s = String::new();
    if c.flags.len() == 0 && c.arguments.len() == 0 {
        return s;
    }
    s.append("  (");
    append_to(&mut s, &replace_char_with(entry.path_str().as_str(), '.', "-"));
    s.append(")\n    _arguments \\\n");
    append_to(&mut s, &concat_each(&c.flags, zsh_flag_spec_exec, Ghost(|f: Flag| zsh_flag_spec(f))));
    s.append("  ;;\n");
    s
}

fn render_completion_zsh(program: &str, registry: &Registry) -> (r: String)
    ensures
        r@ == zsh_completion(program@, registry.commands@),
{
    let subcases = over_entries(
        registry,
        zsh_case_exec,
        Ghost(|e: (Seq<Seq<char>>, Command)| zsh_case(e.0, e.1)),
    );
    let cmds = concat_each(&registry.commands, zsh_command_line_exec, Ghost(|c: Command| zsh_command_line(c)));
    let parts: Vec<String> = vec![
        String::from_str("#compdef "),
        String::from_str(program),
        String::from_str("\n# "),
        String::from_str(program),
        String::from_str(" zsh completion\n\n_"),
        String::from_str(program),
        String::from_str("() {\n  local state\n\n  _arguments \\\n    '1: :"),
        String::from_str(program),
        String::from_str("_commands' \\\n    '*:: :->subcommand'\n\n  case $state in\n    subcommand)\n      case $words[1] in\n"),
        subcases,
        String::from_str("      esac\n  esac\n}\n\n_"),
        String::from_str(program),
        String::from_str("_commands() {\n  local -a commands\n  commands=(\n"),
        cmds,
        String::from_str("  )\n  _describe 'command' commands\n}\n\n_"),
        String::from_str(program),
        String::from_str("\n"),
    ];
    proof {
        assert(views(parts@) =~= seq![
            "#compdef "@,
            program@,
            "\n# "@,
            program@,
            " zsh completion\n\n_"@,
            program@,
            "() {\n  local state\n\n  _arguments \\\n    '1: :"@,
            program@,
            "_commands' \\\n    '*:: :->subcommand'\n\n  case $state in\n    subcommand)\n      case $words[1] in\n"@,
            concat(walk_all(registry.commands@, seq![]).map_values(|e: (Seq<Seq<char>>, Command)| zsh_case(e.0, e.1))),
            "      esac\n  esac\n}\n\n_"@,
            program@,
            "_commands() {\n  local -a commands\n  commands=(\n"@,
            concat(registry.commands@.map_values(|c: Command| zsh_command_line(c))),
            "  )\n  _describe 'command' commands\n}\n\n_"@,
            program@,
            "\n"@,
        ]);
    }
    concat_strings(&parts)
}

fn fish_desc_exec(text: &String) -> (r: String)
    ensures
        r@ == fish_desc(text@),
{
    let mut s = String::new();
    if !text.as_str().is_empty() {
        s.append(" -d '");
        append_to(&mut s, &replace_char_with(text.as_str(), '\'', "\\'"));
        s.append("'");
    }
    s
}

fn fish_top_exec(program: &str, c: &Command) -> (r: String)
    ensures
        r@ == fish_top(program@, *c),
{
    let mut s = String::from_str("complete -c ");
    s.append(program);
    s.append(" -f -n '__fish_use_subcommand' -a '");
    append_to(&mut s, &c.canonical);
    s.append("'");
    append_to(&mut s, &fish_desc_exec(&c.summary));
    s.append("\n");
    s
}

fn fish_flag_exec(program: &str, c: &Command, f: &Flag) -> (r: String)
    ensures
        r@ == fish_flag(program@, *c, *f),
{
    let mut s = String::from_str("complete -c ");
    s.append(program);
    s.append(" -n '__fish_seen_subcommand_from ");
    append_to(&mut s, &c.canonical);
    s.append("' -l '");
    append_to(&mut s, &f.name);
    s.append("'");
    if f.takes_value {
        s.append(" -r");
    }
    append_to(&mut s, &fish_desc_exec(&f.description));
    s.append("\n");
    s
}

fn fish_flags_exec(program: &str, entry: &CommandEntry) -> (r: String)
    ensures
        r@ == fish_flags_of(program@, *entry.command),
{
    let c = entry.command;
    let ghost lines = c.flags@.map_values(|f: Flag| fish_flag(program@, *c, f));
    let mut out = String::new();
    let mut i: usize = 0;
    while i < c.flags.len()
        invariant
            i <= c.flags@.len(),
            lines == c.flags@.map_values(|f: Flag| fish_flag(program@, *c, f)),
            out@ == concat(lines.take(i as int)),
        decreases c.flags.len() - i,
    {
        proof {
            crate::text::lemma_concat_take(lines, i as int);
        }
        append_to(&mut out, &fish_flag_exec(program, c, &c.flags[i]));
        i = i + 1;
    }
    proof {
        crate::text::lemma_concat_all(lines);
    }
    out
}

fn fish_tops_exec(program: &str, registry: &Registry) -> (r: String)
    ensures
        r@ == concat(registry.commands@.map_values(|c: Command| fish_top(program@, c))),
{
    let ghost lines = registry.commands@.map_values(|c: Command| fish_top(program@, c));
    let mut out = String::new();
    let mut i: usize = 0;
    while i < registry.commands.len()
        invariant
            i <= registry.commands@.len(),
            lines == registry.commands@.map_values(|c: Command| fish_top(program@, c)),
            out@ == concat(lines.take(i as int)),
        decreases registry.commands.len() - i,
    {
        proof {
            crate::text::lemma_concat_take(lines, i as int);
        }
        append_to(&mut out, &fish_top_exec(program, &registry.commands[i]));
        i = i + 1;
    }
    proof {
        crate::text::lemma_concat_all(lines);
    }
    out
}

fn fish_all_flags_exec(program: &str, registry: &Registry) -> (r: String)
    ensures
        r@ == concat(
            walk_all(registry.commands@, seq![]).map_values(
                |e: (Seq<Seq<char>>, Command)| fish_flags_of(program@, e.1),
            ),
        ),
{
    let entries = registry.iter_all_recursive();
    let ghost w = walk_all(registry.commands@, seq![]);
    let ghost lines = w.map_values(|e: (Seq<Seq<char>>, Command)| fish_flags_of(program@, e.1));
    let mut out = String::new();
    let mut i: usize = 0;
    while i < entries.len()
        invariant
            i <= entries@.len(),
            entries_view(entries@) == w,
            lines == w.map_values(|e: (Seq<Seq<char>>, Command)| fish_flags_of(program@, e.1)),
            out@ == concat(lines.take(i as int)),
        decreases entries.len() - i,
    {
        proof {
            assert(entries_view(entries@)[i as int] == (views(entries@[i as int].path@), *entries@[i as int].command));
            crate::text::lemma_concat_take(lines, i as int);
        }
        append_to(&mut out, &fish_flags_exec(program, &entries[i]));
        i = i + 1;
    }
    proof {
        crate::text::lemma_concat_all(lines);
    }
    out
}

fn render_completion_fish(program: &str, registry: &Registry) -> (r: String)
    ensures
        r@ == fish_completion(program@, registry.commands@),
{
    let mut out = String::from_str("# ");
    out.append(program);
    out.append(" fish completion\n# Add to ~/.config/fish/completions/");
    out.append(program);
    out.append(".fish\n\n");
    append_to(&mut out, &fish_tops_exec(program, registry));
    out.append("\n");
    append_to(&mut out, &fish_all_flags_exec(program, registry));
    out
}

/// The completion script for `shell`, completing top-level command names
/// and the flags of every command of the registry.
pub fn render_completion(shell: Shell, program: &str, registry: &Registry) -> (r: String)
    ensures
        r@ == completion_text(shell, program@, registry.commands@),
{
    match shell {
        Shell::Bash => render_completion_bash(program, registry),
        Shell::Zsh => render_completion_zsh(program, registry),
        Shell::Fish => render_completion_fish(program, registry),
    }
}

// ── Skill files with frontmatter ────────────────────────────────────────────

/// Metadata written as a YAML frontmatter block above a skill file.
#[derive(Debug)]
pub struct SkillFrontmatter {
    /// Skill name.
    pub name: String,
    /// Version, if given.
    pub version: Option<String>,
    /// Description; the command's summary is used when absent or empty.
    pub description: Option<String>,
    /// Binaries the skill needs.
    pub requires_bins: Vec<String>,
    /// Further keys, each with its value as JSON text.
    pub extra: Vec<(String, String)>,
}

impl SkillFrontmatter {
    /// Frontmatter with the given name and nothing else.
    pub fn new(name: &str) -> (r: Self)
        ensures
            r.name@ == name@,
            r.version is None && r.description is None,
            r.requires_bins@.len() == 0 && r.extra@.len() == 0,
    {
        SkillFrontmatter {
            name: String::from_str(name),
            version: None,
            description: None,
            requires_bins: Vec::new(),
            extra: Vec::new(),
        }
    }

    /// Set the version.
    pub fn version(self, v: &str) -> (r: Self)
        ensures
            r.version matches Some(x) && x@ == v@,
            r.name == self.name && r.description == self.description && r.requires_bins
                == self.requires_bins && r.extra == self.extra,
    {
        SkillFrontmatter { version: Some(String::from_str(v)), ..self }
    }

    /// Set the description.
    pub fn description(self, d: &str) -> (r: Self)
        ensures
            r.description matches Some(x) && x@ == d@,
            r.name == self.name && r.version == self.version && r.requires_bins
                == self.requires_bins && r.extra == self.extra,
    {
        SkillFrontmatter { description: Some(String::from_str(d)), ..self }
    }

    /// Add a required binary.
    pub fn requires_bin(self, bin: &str) -> (r: Self)
        ensures
            views(r.requires_bins@) == views(self.requires_bins@).push(bin@),
            r.name == self.name && r.version == self.version && r.description
                == self.description && r.extra == self.extra,
    {
        let mut r = self;
        r.requires_bins.push(String::from_str(bin));
        r
    }

    /// Set the extra key `key` to the JSON text `value`.
    pub fn extra(self, key: &str, value: &str) -> (r: Self)
        ensures
            pairs_map(r.extra@) == pairs_map(self.extra@).insert(key@, value@),
            r.name == self.name && r.version == self.version && r.description
                == self.description && r.requires_bins == self.requires_bins,
    {
        let mut extra = self.extra;
        assoc_insert(&mut extra, String::from_str(key), String::from_str(value));
        SkillFrontmatter { extra, ..self }
    }
}

pub open spec fn key_after(s: Seq<(Seq<char>, Seq<char>)>, k: Seq<char>) -> spec_fn(int) -> bool {
    |i: int| seq_lt(k, s[i].0)
}

/// Insert `e` before the first pair whose key sorts after `e`'s.
pub open spec fn insert_by_key(s: Seq<(Seq<char>, Seq<char>)>, e: (Seq<char>, Seq<char>)) -> Seq<
    (Seq<char>, Seq<char>),
> {
    s.insert(first_where(0, s.len() as int, key_after(s, e.0)), e)
}

/// The pairs ordered by key (insertion order among equal keys).
pub open spec fn sort_by_key(s: Seq<(Seq<char>, Seq<char>)>) -> Seq<(Seq<char>, Seq<char>)>
    decreases s.len(),
{
    if s.len() == 0 {
        seq![]
    } else {
        insert_by_key(sort_by_key(s.drop_last()), s.last())
    }
}

/// The pairs ordered by key.
fn sort_pairs(v: &Vec<(String, String)>) -> (r: Vec<(String, String)>)
    ensures
        pair_views(r@) == sort_by_key(pair_views(v@)),
{
    let mut out: Vec<(String, String)> = Vec::new();
    let mut k: usize = 0;
    while k < v.len()
        invariant
            k <= v@.len(),
            pair_views(out@) == sort_by_key(pair_views(v@).take(k as int)),
        decreases v.len() - k,
    {
        let e = (v[k].0.clone(), v[k].1.clone());
        let ghost s = pair_views(out@);
        let ghost ev = (e.0@, e.1@);
        let mut p: usize = 0;
        while p < out.len() && !str_lt(e.0.as_str(), out[p].0.as_str())
            invariant
                p <= out@.len(),
                s == pair_views(out@),
                ev == (e.0@, e.1@),
                forall|m: int| 0 <= m < p ==> !(#[trigger] key_after(s, ev.0)(m)),
            decreases out.len() - p,
        {
            p = p + 1;
        }
        proof {
            if p < out@.len() {
                lemma_first_where_at(0, s.len() as int, key_after(s, ev.0), p as int);
            } else {
                lemma_first_where_none(0, s.len() as int, key_after(s, ev.0));
            }
        }
        out.insert(p, e);
        proof {
            let t = pair_views(v@).take(k + 1);
            assert(t.drop_last() =~= pair_views(v@).take(k as int));
            assert(t.last() == ev);
            assert(pair_views(out@) =~= s.insert(p as int, ev));
        }
        k = k + 1;
    }
    proof {
        assert(pair_views(v@).take(v@.len() as int) =~= pair_views(v@));
    }
    out
}

/// The description the frontmatter shows: its own when not empty, else the
/// command's summary when not empty.
pub open spec fn fm_description(fm: SkillFrontmatter, c: Command) -> Option<Seq<char>> {
    match fm.description {
        Some(d) if d@.len() > 0 => Some(d@),
        _ => if c.summary@.len() > 0 {
            Some(c.summary@)
        } else {
            None
        },
    }
}

pub open spec fn bin_line(b: String) -> Seq<char> {
    "  - "@ + b@ + "\n"@
}

pub open spec fn extra_line(p: (Seq<char>, Seq<char>)) -> Seq<char> {
    "  "@ + p.0 + ": "@ + p.1 + "\n"@
}

/// The YAML frontmatter block: name, version, description, required
/// binaries and extra keys (sorted), between `---` lines.
pub open spec fn frontmatter_text(fm: SkillFrontmatter, c: Command) -> Seq<char> {
    concat(
        seq![
            "---\n"@,
            "name: "@ + fm.name@ + "\n"@,
            match fm.version {
                Some(v) => "version: "@ + v@ + "\n"@,
                None => seq![],
            },
            match fm_description(fm, c) {
                Some(d) => "description: "@ + d + "\n"@,
                None => seq![],
            },
            section(
                "requires_bins:\n"@,
                fm.requires_bins@.len(),
                concat(fm.requires_bins@.map_values(|b: String| bin_line(b))),
                ""@,
            ),
            section(
                "extra:\n"@,
                fm.extra@.len(),
                concat(sort_by_key(pair_views(fm.extra@)).map_values(|p: (Seq<char>, Seq<char>)| extra_line(p))),
                ""@,
            ),
            "---\n"@,
        ],
    )
}

fn bin_line_exec(b: &String) -> (r: String)
    ensures
        r@ == bin_line(*b),
{
    let mut s = String::from_str("  - ");
    append_to(&mut s, b);
    s.append("\n");
    s
}

pub fn render_frontmatter(fm: &SkillFrontmatter, c: &Command) -> (r: String)
    ensures
        r@ == frontmatter_text(*fm, *c),
{
    let p0 = String::from_str("---\n");
    let mut p1 = String::from_str("name: ");
    append_to(&mut p1, &fm.name);
    p1.append("\n");
    let mut p2 = String::new();
    match &fm.version {
        Some(v) => {
            p2.append("version: ");
            append_to(&mut p2, v);
            p2.append("\n");
        },
        None => {},
    }
    let mut p3 = String::new();
    let own = match &fm.description {
        Some(d) => !d.as_str().is_empty(),
        None => false,
    };
    if own {
        p3.append("description: ");
        match &fm.description {
            Some(d) => append_to(&mut p3, d),
            None => {},
        }
        p3.append("\n");
    } else if !c.summary.as_str().is_empty() {
        p3.append("description: ");
        append_to(&mut p3, &c.summary);
        p3.append("\n");
    }
    let l4 = concat_each(&fm.requires_bins, bin_line_exec, Ghost(|b: String| bin_line(b)));
    let p4 = section_exec("requires_bins:\n", fm.requires_bins.len(), l4, "");
    let sorted = sort_pairs(&fm.extra);
    let ghost lines = sort_by_key(pair_views(fm.extra@)).map_values(|p: (Seq<char>, Seq<char>)| extra_line(p));
    let mut l5 = String::new();
    let mut i: usize = 0;
    while i < sorted.len()
        invariant
            i <= sorted@.len(),
            pair_views(sorted@) == sort_by_key(pair_views(fm.extra@)),
            lines == sort_by_key(pair_views(fm.extra@)).map_values(|p: (Seq<char>, Seq<char>)| extra_line(p)),
            l5@ == concat(lines.take(i as int)),
        decreases sorted.len() - i,
    {
        proof {
            assert(pair_views(sorted@)[i as int] == (sorted@[i as int].0@, sorted@[i as int].1@));
            crate::text::lemma_concat_take(lines, i as int);
        }
        l5.append("  ");
        append_to(&mut l5, &sorted[i].0);
        l5.append(": ");
        append_to(&mut l5, &sorted[i].1);
        l5.append("\n");
        i = i + 1;
    }
    proof {
        crate::text::lemma_concat_all(lines);
    }
    let p5 = section_exec("extra:\n", fm.extra.len(), l5, "");
    let p6 = String::from_str("---\n");
    let parts: Vec<String> = vec![p0, p1, p2, p3, p4, p5, p6];
    proof {
        assert(views(parts@) =~= seq![
            "---\n"@,
            "name: "@ + fm.name@ + "\n"@,
            match fm.version {
                Some(v) => "version: "@ + v@ + "\n"@,
                None => seq![],
            },
            match fm_description(*fm, *c) {
                Some(d) => "description: "@ + d + "\n"@,
                None => seq![],
            },
            section(
                "requires_bins:\n"@,
                fm.requires_bins@.len(),
                concat(fm.requires_bins@.map_values(|b: String| bin_line(b))),
                ""@,
            ),
            section(
                "extra:\n"@,
                fm.extra@.len(),
                concat(sort_by_key(pair_views(fm.extra@)).map_values(|p: (Seq<char>, Seq<char>)| extra_line(p))),
                ""@,
            ),
            "---\n"@,
        ]);
    }
    concat_strings(&parts)
}

/// The frontmatter block, a blank line, then the skill file.
pub fn render_skill_file_with_frontmatter(cmd: &Command, frontmatter: &SkillFrontmatter) -> (r: String)
    ensures
        r@ == frontmatter_text(*frontmatter, *cmd) + "\n"@ + skill_text(*cmd),
{
    let mut out = render_frontmatter(frontmatter, cmd);
    out.append("\n");
    append_to(&mut out, &render_skill_file(cmd));
    out
}

/// The skill file of `c`, with the frontmatter block above it when given.
pub open spec fn skill_with(fm: Option<SkillFrontmatter>, c: Command) -> Seq<char> {
    match fm {
        Some(f) => frontmatter_text(f, c) + "\n"@ + skill_text(c),
        None => skill_text(c),
    }
}

/// `fms` holds, for each entry of the walk `w`, a value `f` may return for
/// its command.
pub open spec fn frontmatter_outcomes<F: Fn(&Command) -> Option<SkillFrontmatter>>(
    f: F,
    w: Seq<(Seq<Seq<char>>, Command)>,
    fms: Seq<Option<SkillFrontmatter>>,
) -> bool {
    fms.len() == w.len() && forall|i: int|
        0 <= i < fms.len() ==> f.ensures((&w[i].1,), #[trigger] fms[i])
}

/// The skill files of every command of the registry (depth-first), each
/// with the frontmatter `frontmatter_fn` returns for it (if any), separated
/// by `---` lines.
pub fn render_skill_files_with_frontmatter<F: Fn(&Command) -> Option<SkillFrontmatter>>(
    registry: &Registry,
    frontmatter_fn: F,
) -> (r: String)
    requires
        forall|c: &Command| #[trigger] frontmatter_fn.requires((c,)),
    ensures
        exists|fms: Seq<Option<SkillFrontmatter>>|
            #[trigger] frontmatter_outcomes(frontmatter_fn, walk_all(registry.commands@, seq![]), fms)
                && r@ == join(
                Seq::new(
                    fms.len(),
                    |i: int| skill_with(fms[i], walk_all(registry.commands@, seq![])[i].1),
                ),
                "\n---\n\n"@,
            ),
{
    let entries = registry.iter_all_recursive();
    let ghost w = walk_all(registry.commands@, seq![]);
    let ghost mut fms: Seq<Option<SkillFrontmatter>> = seq![];
    let mut parts: Vec<String> = Vec::new();
    let mut i: usize = 0;
    while i < entries.len()
        invariant
            i <= entries@.len(),
            entries_view(entries@) == w,
            w == walk_all(registry.commands@, seq![]),
            forall|c: &Command| #[trigger] frontmatter_fn.requires((c,)),
            fms.len() == i,
            parts@.len() == i,
            forall|k: int| 0 <= k < i ==> frontmatter_fn.ensures((&w[k].1,), #[trigger] fms[k]),
            forall|k: int| 0 <= k < i ==> (#[trigger] parts@[k])@ == skill_with(fms[k], w[k].1),
        decreases entries.len() - i,
    {
        proof {
            assert(entries_view(entries@)[i as int] == (views(entries@[i as int].path@), *entries@[i as int].command));
        }
        let cmd = entries[i].command;
        let fm = frontmatter_fn(cmd);
        let t = match &fm {
            Some(f) => render_skill_file_with_frontmatter(cmd, f),
            None => render_skill_file(cmd),
        };
        proof {
            fms = fms.push(fm);
        }
        parts.push(t);
        i = i + 1;
    }
    proof {
        assert(views(parts@) =~= Seq::new(fms.len(), |k: int| skill_with(fms[k], w[k].1)));
        assert(frontmatter_outcomes(frontmatter_fn, w, fms));
    }
    join_strings(&parts, &String::from_str("\n---\n\n"))
}

// ── JSON Schema of a command's inputs ───────────────────────────────────────

/// The JSON type of a schema property.
#[derive(Debug, Clone, Copy, PartialEq, Eq, Structural)]
pub enum SchemaType {
    /// `"string"`.
    Str,
    /// `"array"` of strings.
    Array,
    /// `"boolean"`.
    Boolean,
}

/// The default of a schema property.
#[derive(Debug, PartialEq, Eq)]
pub enum SchemaDefault {
    /// A string default.
    Text(String),
    /// `false`, the default of a boolean flag.
    False,
}

/// One property of the schema: an argument or a flag.
#[derive(Debug)]
pub struct SchemaProperty {
    pub ty: SchemaType,
    pub description: Option<String>,
    /// Allowed values (`enum`), for flags with choices.
    pub choices: Option<Vec<String>>,
    pub default: Option<SchemaDefault>,
}

/// A JSON Schema (draft-07) object describing a command's inputs.
#[derive(Debug)]
pub struct JsonSchema {
    /// The command's canonical name.
    pub title: String,
    /// The command's summary, when not empty.
    pub description: Option<String>,
    /// One property per argument and flag name; a flag replaces an argument
    /// of the same name.
    pub properties: Vec<(String, SchemaProperty)>,
    /// Names of required arguments, then of required flags.
    pub required: Vec<String>,
    /// Whether the command mutates state.
    pub mutating: bool,
}

/// The optional text: `Some` when not empty.
pub open spec fn non_empty(s: Seq<char>) -> Option<Seq<char>> {
    if s.len() > 0 {
        Some(s)
    } else {
        None
    }
}

/// The view of an optional string.
pub open spec fn opt_text(o: Option<String>) -> Option<Seq<char>> {
    match o {
        Some(s) => Some(s@),
        None => None,
    }
}

/// The property `p` describes the argument `a`.
pub open spec fn describes_argument(p: SchemaProperty, a: Argument) -> bool {
    &&& p.ty == (if a.variadic {
        SchemaType::Array
    } else {
        SchemaType::Str
    })
    &&& opt_text(p.description) == non_empty(a.description@)
    &&& p.choices is None
    &&& match a.default {
        Some(d) => p.default matches Some(SchemaDefault::Text(t)) && t@ == d@,
        None => p.default is None,
    }
}

/// The property `p` describes the flag `f`.
pub open spec fn describes_flag(p: SchemaProperty, f: Flag) -> bool {
    &&& opt_text(p.description) == non_empty(f.description@)
    &&& if f.takes_value {
        &&& p.ty == SchemaType::Str
        &&& match f.choices {
            Some(c) => p.choices matches Some(pc) && views(pc@) == views(c@),
            None => p.choices is None,
        }
        &&& match f.default {
            Some(d) => p.default matches Some(SchemaDefault::Text(t)) && t@ == d@,
            None => p.default is None,
        }
    } else {
        &&& p.ty == SchemaType::Boolean
        &&& p.choices is None
        &&& p.default == Some(SchemaDefault::False)
    }
}

/// Where a property comes from: an argument or a flag, by index.
pub enum PropertySource {
    Arg(int),
    Flag(int),
}

pub open spec fn key_is(s: Seq<(Seq<char>, PropertySource)>, k: Seq<char>) -> spec_fn(int) -> bool {
    |j: int| s[j].0 == k
}

/// Set `k` to `v` in a list of keyed sources: replace the first entry with
/// that key, or append.
pub open spec fn set_source(s: Seq<(Seq<char>, PropertySource)>, k: Seq<char>, v: PropertySource) -> Seq<
    (Seq<char>, PropertySource),
> {
    let i = first_where(0, s.len() as int, key_is(s, k));
    if i < s.len() {
        s.update(i, (k, v))
    } else {
        s.push((k, v))
    }
}

/// The properties' names and sources after inserting the first `n`
/// arguments.
pub open spec fn arg_sources(args: Seq<Argument>, n: int) -> Seq<(Seq<char>, PropertySource)>
    decreases n,
{
    if n <= 0 {
        seq![]
    } else {
        set_source(arg_sources(args, n - 1), args[n - 1].name@, PropertySource::Arg(n - 1))
    }
}

/// The properties' names and sources after inserting every argument, then
/// the first `n` flags.
pub open spec fn all_sources(c: Command, n: int) -> Seq<(Seq<char>, PropertySource)>
    decreases n,
{
    if n <= 0 {
        arg_sources(c.arguments@, c.arguments@.len() as int)
    } else {
        set_source(all_sources(c, n - 1), c.flags@[n - 1].name@, PropertySource::Flag(n - 1))
    }
}

/// The property `p`, named `name`, is the one the source describes.
pub open spec fn property_matches(c: Command, src: (Seq<char>, PropertySource), p: (String, SchemaProperty)) -> bool {
    &&& p.0@ == src.0
    &&& match src.1 {
        PropertySource::Arg(i) => describes_argument(p.1, c.arguments@[i]),
        PropertySource::Flag(i) => describes_flag(p.1, c.flags@[i]),
    }
}

/// No two entries share a key.
pub open spec fn keys_distinct(s: Seq<(Seq<char>, PropertySource)>) -> bool {
    forall|a: int, b: int| 0 <= a < b < s.len() ==> (#[trigger] s[a]).0 != (#[trigger] s[b]).0
}

/// Setting a key keeps every entry with another key where it was, adds or
/// replaces the entry for the key, and keeps keys distinct.
proof fn lemma_set_source(s: Seq<(Seq<char>, PropertySource)>, k: Seq<char>, v: PropertySource)
    ensures
        ({
            let r = set_source(s, k, v);
            &&& r.len() >= s.len()
            &&& forall|i: int| 0 <= i < s.len() && (#[trigger] s[i]).0 != k ==> r[i] == s[i]
            &&& forall|i: int| 0 <= i < r.len() ==> (#[trigger] r[i]) == (k, v) || (i < s.len() && r[i] == s[i])
            &&& exists|i: int| 0 <= i < r.len() && #[trigger] r[i] == (k, v)
            &&& keys_distinct(s) ==> keys_distinct(r)
        }),
{
    let n = s.len() as int;
    crate::model::lemma_first_where_spec(0, n, key_is(s, k));
    let i0 = first_where(0, n, key_is(s, k));
    let r = set_source(s, k, v);
    if i0 < n {
        assert(r[i0] == (k, v));
        if keys_distinct(s) {
            assert forall|a: int, b: int| 0 <= a < b < r.len() implies (#[trigger] r[a]).0 != (#[trigger] r[b]).0 by {
                if a == i0 {
                    assert(s[b].0 != s[i0].0);
                } else if b == i0 {
                    assert(s[a].0 != s[i0].0);
                }
            }
        }
    } else {
        assert(r[n] == (k, v));
        assert forall|i: int| 0 <= i < n implies (#[trigger] s[i]).0 != k by {
            assert(!key_is(s, k)(i));
        }
    }
}

/// The schema's property names: one entry per distinct argument or flag
/// name, each naming the argument or flag it comes from; a flag's name is
/// described by a flag, which wins over an argument of the same name.
pub proof fn lemma_schema_sources(c: Command)
    ensures
        ({
            let src = all_sources(c, c.flags@.len() as int);
            &&& keys_distinct(src)
            &&& forall|k: int|
                0 <= k < src.len() ==> match (#[trigger] src[k]).1 {
                    PropertySource::Arg(i) => 0 <= i < c.arguments@.len() && c.arguments@[i].name@ == src[k].0,
                    PropertySource::Flag(i) => 0 <= i < c.flags@.len() && c.flags@[i].name@ == src[k].0,
                }
            &&& forall|j: int|
                0 <= j < c.arguments@.len() ==> exists|k: int|
                    0 <= k < src.len() && (#[trigger] src[k]).0 == (#[trigger] c.arguments@[j]).name@
            &&& forall|j: int|
                0 <= j < c.flags@.len() ==> exists|k: int|
                    0 <= k < src.len() && (#[trigger] src[k]).0 == (#[trigger] c.flags@[j]).name@
                        && src[k].1 is Flag
        }),
{
    lemma_arg_sources(c.arguments@, c.arguments@.len() as int);
    lemma_all_sources(c, c.flags@.len() as int);
}

proof fn lemma_arg_sources(args: Seq<Argument>, n: int)
    requires
        0 <= n <= args.len(),
    ensures
        ({
            let src = arg_sources(args, n);
            &&& keys_distinct(src)
            &&& forall|k: int|
                0 <= k < src.len() ==> ((#[trigger] src[k]).1 matches PropertySource::Arg(i) && 0 <= i < n
                    && args[i].name@ == src[k].0)
            &&& forall|j: int| 0 <= j < n ==> exists|k: int| 0 <= k < src.len() && (#[trigger] src[k]).0 == (#[trigger] args[j]).name@
        }),
    decreases n,
{
    if n > 0 {
        lemma_arg_sources(args, n - 1);
        let prev = arg_sources(args, n - 1);
        let x = args[n - 1].name@;
        lemma_set_source(prev, x, PropertySource::Arg(n - 1));
        let src = arg_sources(args, n);
        assert forall|j: int| 0 <= j < n implies exists|k: int| 0 <= k < src.len() && (#[trigger] src[k]).0 == (#[trigger] args[j]).name@ by {
            if j == n - 1 {
                let k = choose|k: int| 0 <= k < src.len() && #[trigger] src[k] == (x, PropertySource::Arg(n - 1));
                assert(src[k].0 == args[j].name@);
            } else {
                let k = choose|k: int| 0 <= k < prev.len() && (#[trigger] prev[k]).0 == (#[trigger] args[j]).name@;
                if prev[k].0 != x {
                    assert(src[k] == prev[k]);
                } else {
                    let k2 = choose|k2: int| 0 <= k2 < src.len() && #[trigger] src[k2] == (x, PropertySource::Arg(n - 1));
                    assert(src[k2].0 == args[j].name@);
                }
            }
        }
    }
}

proof fn lemma_all_sources(c: Command, n: int)
    requires
        0 <= n <= c.flags@.len(),
    ensures
        ({
            let src = all_sources(c, n);
            &&& keys_distinct(src)
            &&& forall|k: int|
                0 <= k < src.len() ==> match (#[trigger] src[k]).1 {
                    PropertySource::Arg(i) => 0 <= i < c.arguments@.len() && c.arguments@[i].name@ == src[k].0,
                    PropertySource::Flag(i) => 0 <= i < n && c.flags@[i].name@ == src[k].0,
                }
            &&& forall|j: int|
                0 <= j < c.arguments@.len() ==> exists|k: int|
                    0 <= k < src.len() && (#[trigger] src[k]).0 == (#[trigger] c.arguments@[j]).name@
            &&& forall|j: int|
                0 <= j < n ==> exists|k: int|
                    0 <= k < src.len() && (#[trigger] src[k]).0 == (#[trigger] c.flags@[j]).name@
                        && src[k].1 is Flag
        }),
    decreases n,
{
    if n == 0 {
        lemma_arg_sources(c.arguments@, c.arguments@.len() as int);
    } else {
        lemma_all_sources(c, n - 1);
        let prev = all_sources(c, n - 1);
        let x = c.flags@[n - 1].name@;
        lemma_set_source(prev, x, PropertySource::Flag(n - 1));
        let src = all_sources(c, n);
        assert forall|k: int| 0 <= k < src.len() implies match (#[trigger] src[k]).1 {
            PropertySource::Arg(i) => 0 <= i < c.arguments@.len() && c.arguments@[i].name@ == src[k].0,
            PropertySource::Flag(i) => 0 <= i < n && c.flags@[i].name@ == src[k].0,
        } by {
            if src[k] != (x, PropertySource::Flag(n - 1)) {
                assert(src[k] == prev[k]);
            }
        }
        assert forall|j: int| 0 <= j < c.arguments@.len() implies exists|k: int|
            0 <= k < src.len() && (#[trigger] src[k]).0 == (#[trigger] c.arguments@[j]).name@ by {
            let k = choose|k: int| 0 <= k < prev.len() && (#[trigger] prev[k]).0 == (#[trigger] c.arguments@[j]).name@;
            if prev[k].0 != x {
                assert(src[k] == prev[k]);
            } else {
                let k2 = choose|k2: int| 0 <= k2 < src.len() && #[trigger] src[k2] == (x, PropertySource::Flag(n - 1));
                assert(src[k2].0 == c.arguments@[j].name@);
            }
        }
        assert forall|j: int| 0 <= j < n implies exists|k: int|
            0 <= k < src.len() && (#[trigger] src[k]).0 == (#[trigger] c.flags@[j]).name@ && src[k].1 is Flag by {
            let k2 = choose|k2: int| 0 <= k2 < src.len() && #[trigger] src[k2] == (x, PropertySource::Flag(n - 1));
            if j == n - 1 {
                assert(src[k2].0 == c.flags@[j].name@);
            } else {
                let k = choose|k: int| 0 <= k < prev.len() && (#[trigger] prev[k]).0 == (#[trigger] c.flags@[j]).name@
                    && prev[k].1 is Flag;
                if prev[k].0 != x {
                    assert(src[k] == prev[k]);
                } else {
                    assert(src[k2].0 == c.flags@[j].name@);
                }
            }
        }
    }
}

/// Names of the required arguments, then of the required flags.
pub open spec fn required_names(c: Command) -> Seq<Seq<char>> {
    crate::resolver::indices_where(c.arguments@.len() as int, |i: int| c.arguments@[i].required).map_values(
        |i: int| c.arguments@[i].name@,
    ) + crate::resolver::indices_where(c.flags@.len() as int, |i: int| c.flags@[i].required).map_values(
        |i: int| c.flags@[i].name@,
    )
}

fn optional_text(s: &String) -> (r: Option<String>)
    ensures
        opt_text(r) == non_empty(s@),
{
    if s.as_str().is_empty() {
        None
    } else {
        Some(s.clone())
    }
}

fn copy_list(v: &Vec<String>) -> (r: Vec<String>)
    ensures
        views(r@) == views(v@),
{
    map_each(v, crate::text::copy_string, Ghost(|s: String| s@))
}

fn argument_property(a: &Argument) -> (p: SchemaProperty)
    ensures
        describes_argument(p, *a),
{
    SchemaProperty {
        ty: if a.variadic {
            SchemaType::Array
        } else {
            SchemaType::Str
        },
        description: optional_text(&a.description),
        choices: None,
        default: match &a.default {
            Some(d) => Some(SchemaDefault::Text(d.clone())),
            None => None,
        },
    }
}

fn flag_property(f: &Flag) -> (p: SchemaProperty)
    ensures
        describes_flag(p, *f),
{
    if f.takes_value {
        SchemaProperty {
            ty: SchemaType::Str,
            description: optional_text(&f.description),
            choices: match &f.choices {
                Some(c) => Some(copy_list(c)),
                None => None,
            },
            default: match &f.default {
                Some(d) => Some(SchemaDefault::Text(d.clone())),
                None => None,
            },
        }
    } else {
        SchemaProperty {
            ty: SchemaType::Boolean,
            description: optional_text(&f.description),
            choices: None,
            default: Some(SchemaDefault::False),
        }
    }
}

/// Set the property named `name`, replacing an earlier one of that name.
fn put_property(
    c: &Command,
    props: &mut Vec<(String, SchemaProperty)>,
    Ghost(srcs): Ghost<Seq<(Seq<char>, PropertySource)>>,
    name: String,
    p: SchemaProperty,
    Ghost(src): Ghost<PropertySource>,
)
    requires
        old(props)@.len() == srcs.len(),
        forall|i: int| 0 <= i < srcs.len() ==> property_matches(*c, srcs[i], #[trigger] old(props)@[i]),
        property_matches(*c, (name@, src), (name, p)),
    ensures
        final(props)@.len() == set_source(srcs, name@, src).len(),
        forall|i: int|
            0 <= i < final(props)@.len() ==> property_matches(
                *c,
                set_source(srcs, name@, src)[i],
                #[trigger] final(props)@[i],
            ),
{
    let ghost key = name@;
    let ghost pred = key_is(srcs, key);
    let mut i: usize = 0;
    while i < props.len()
        invariant
            i <= props@.len(),
            props@ == old(props)@,
            props@.len() == srcs.len(),
            key == name@,
            property_matches(*c, (name@, src), (name, p)),
            pred == key_is(srcs, key),
            forall|k: int| 0 <= k < srcs.len() ==> property_matches(*c, srcs[k], #[trigger] props@[k]),
            forall|k: int| 0 <= k < i ==> !(#[trigger] pred(k)),
        decreases props.len() - i,
    {
        if props[i].0 == name {
            proof {
                assert(property_matches(*c, srcs[i as int], props@[i as int]));
                lemma_first_where_at(0, srcs.len() as int, pred, i as int);
            }
            let ghost pair = (name, p);
            let ghost before = props@;
            props.set(i, (name, p));
            proof {
                let ns = set_source(srcs, key, src);
                assert(ns == srcs.update(i as int, (key, src)));
                assert(props@ == before.update(i as int, pair));
                assert forall|k: int| 0 <= k < props@.len() implies property_matches(*c, ns[k], #[trigger] props@[k]) by {
                    if k == i {
                        assert(ns[k] == (key, src));
                        assert(props@[k] == pair);
                        assert(property_matches(*c, (name@, src), pair));
                    } else {
                        assert(ns[k] == srcs[k]);
                        assert(props@[k] == before[k]);
                        assert(property_matches(*c, srcs[k], before[k]));
                    }
                }
            }
            return ;
        }
        proof {
            assert(property_matches(*c, srcs[i as int], props@[i as int]));
        }
        i = i + 1;
    }
    proof {
        lemma_first_where_none(0, srcs.len() as int, pred);
    }
    props.push((name, p));
}

/// The JSON Schema of `command`'s inputs: one string (or string-array, for
/// variadic) property per argument and one property per flag (string, with
/// `enum` for choices, or boolean defaulting to `false`), with descriptions
/// and defaults, the required names, and the command's title, summary and
/// mutating mark.
pub fn json_schema(command: &Command) -> (r: JsonSchema)
    ensures
        r.title@ == command.canonical@,
        opt_text(r.description) == non_empty(command.summary@),
        r.mutating == command.mutating,
        views(r.required@) == required_names(*command),
        r.properties@.len() == all_sources(*command, command.flags@.len() as int).len(),
        forall|i: int|
            0 <= i < r.properties@.len() ==> property_matches(
                *command,
                all_sources(*command, command.flags@.len() as int)[i],
                #[trigger] r.properties@[i],
            ),
{
    let c = command;
    let mut props: Vec<(String, SchemaProperty)> = Vec::new();
    let mut req_args: Vec<String> = Vec::new();
    let ghost argp = |i: int| c.arguments@[i].required;
    let mut i: usize = 0;
    while i < c.arguments.len()
        invariant
            i <= c.arguments@.len(),
            argp == (|i: int| c.arguments@[i].required),
            props@.len() == arg_sources(c.arguments@, i as int).len(),
            forall|k: int|
                0 <= k < props@.len() ==> property_matches(*c, arg_sources(c.arguments@, i as int)[k], #[trigger] props@[k]),
            views(req_args@) == crate::resolver::indices_where(i as int, argp).map_values(|j: int| c.arguments@[j].name@),
        decreases c.arguments.len() - i,
    {
        let a = &c.arguments[i];
        let prop = argument_property(a);
        put_property(c, &mut props, Ghost(arg_sources(c.arguments@, i as int)), a.name.clone(), prop, Ghost(PropertySource::Arg(i as int)));
        let ghost prev = req_args@;
        if a.required {
            req_args.push(a.name.clone());
        }
        proof {
            if a.required {
                assert(crate::resolver::indices_where(i + 1, argp) == crate::resolver::indices_where(i as int, argp).push(i as int));
                assert(views(req_args@) =~= views(prev).push(a.name@));
            } else {
                assert(crate::resolver::indices_where(i + 1, argp) == crate::resolver::indices_where(i as int, argp));
            }
            assert(views(req_args@) =~= crate::resolver::indices_where(i + 1, argp).map_values(|j: int| c.arguments@[j].name@));
        }
        i = i + 1;
    }
    let mut req_flags: Vec<String> = Vec::new();
    let ghost flagp = |i: int| c.flags@[i].required;
    let mut i: usize = 0;
    while i < c.flags.len()
        invariant
            i <= c.flags@.len(),
            flagp == (|i: int| c.flags@[i].required),
            props@.len() == all_sources(*c, i as int).len(),
            forall|k: int|
                0 <= k < props@.len() ==> property_matches(*c, all_sources(*c, i as int)[k], #[trigger] props@[k]),
            views(req_flags@) == crate::resolver::indices_where(i as int, flagp).map_values(|j: int| c.flags@[j].name@),
        decreases c.flags.len() - i,
    {
        let f = &c.flags[i];
        let prop = flag_property(f);
        put_property(c, &mut props, Ghost(all_sources(*c, i as int)), f.name.clone(), prop, Ghost(PropertySource::Flag(i as int)));
        let ghost prev = req_flags@;
        if f.required {
            req_flags.push(f.name.clone());
        }
        proof {
            if f.required {
                assert(crate::resolver::indices_where(i + 1, flagp) == crate::resolver::indices_where(i as int, flagp).push(i as int));
                assert(views(req_flags@) =~= views(prev).push(f.name@));
            } else {
                assert(crate::resolver::indices_where(i + 1, flagp) == crate::resolver::indices_where(i as int, flagp));
            }
            assert(views(req_flags@) =~= crate::resolver::indices_where(i + 1, flagp).map_values(|j: int| c.flags@[j].name@));
        }
        i = i + 1;
    }
    let ghost ra = req_args@;
    let ghost rf = req_flags@;
    req_args.append(&mut req_flags);
    proof {
        assert(views(req_args@) =~= views(ra) + views(rf));
    }
    JsonSchema {
        title: c.canonical.clone(),
        description: optional_text(&c.summary),
        properties: props,
        required: req_args,
        mutating: c.mutating,
    }
}


// ── Pluggable renderers ─────────────────────────────────────────────────────

/// A renderer for help pages, Markdown documentation and disambiguation
/// messages, for applications that format output their own way. The
/// methods with a body use the free functions of this module.
pub trait Renderer {
    /// A plain-text help page for a command.
    fn render_help(&self, command: &Command) -> String;

    /// A Markdown page for a command.
    fn render_markdown(&self, command: &Command) -> String;

    /// A compact listing of several commands.
    fn render_subcommand_list(&self, commands: &[Command]) -> String;

    /// A disambiguation message for an ambiguous command word.
    fn render_ambiguity(&self, input: &str, candidates: &[String]) -> String;

    /// A Markdown reference for every command of a registry.
    fn render_docs(&self, registry: &Registry) -> (r: String)
        default_ensures
            r@ == docs_text(registry.commands@),
    {
        render_docs(registry)
    }

    /// A skill file for one command.
    fn render_skill_file(&self, command: &Command) -> (r: String)
        default_ensures
            r@ == skill_text(*command),
    {
        render_skill_file(command)
    }

    /// Skill files for every command of a registry.
    fn render_skill_files(&self, registry: &Registry) -> (r: String)
        default_ensures
            r@ == skill_files_text(registry.commands@),
    {
        render_skill_files(registry)
    }

    /// A skill file with a frontmatter block before it.
    fn render_skill_file_with_frontmatter(
        &self,
        cmd: &Command,
        frontmatter: &SkillFrontmatter,
    ) -> (r: String)
        default_ensures
            r@ == frontmatter_text(*frontmatter, *cmd) + "\n"@ + skill_text(*cmd),
    {
        render_skill_file_with_frontmatter(cmd, frontmatter)
    }
}

/// The renderer that uses the free functions of this module.
#[derive(Debug, Default, Clone, Copy)]
pub struct DefaultRenderer;

impl Renderer for DefaultRenderer {
    fn render_help(&self, command: &Command) -> (r: String)
        ensures
            r@ == help_text(*command),
    {
        render_help(command)
    }

    fn render_markdown(&self, command: &Command) -> (r: String)
        ensures
            r@ == markdown_text(*command),
    {
        render_markdown(command)
    }

    fn render_subcommand_list(&self, commands: &[Command]) -> (r: String)
        ensures
            r@ == concat(commands@.map_values(|c: Command| list_line(c))),
    {
        render_subcommand_list(commands)
    }

    fn render_ambiguity(&self, input: &str, candidates: &[String]) -> (r: String)
        ensures
            r@ == ambiguity_text(input@, views(candidates@)),
    {
        render_ambiguity(input, candidates)
    }

    fn render_docs(&self, registry: &Registry) -> (r: String)
        ensures
            r@ == docs_text(registry.commands@),
    {
        render_docs(registry)
    }

    fn render_skill_file(&self, command: &Command) -> (r: String)
        ensures
            r@ == skill_text(*command),
    {
        render_skill_file(command)
    }

    fn render_skill_files(&self, registry: &Registry) -> (r: String)
        ensures
            r@ == skill_files_text(registry.commands@),
    {
        render_skill_files(registry)
    }

    fn render_skill_file_with_frontmatter(
        &self,
        cmd: &Command,
        frontmatter: &SkillFrontmatter,
    ) -> (r: String)
        ensures
            r@ == frontmatter_text(*frontmatter, *cmd) + "\n"@ + skill_text(*cmd),
    {
        render_skill_file_with_frontmatter(cmd, frontmatter)
    }
}

// ── Laws of the rendered pages ─────────────────────────────────────────────

/// The usage line of a command starts with its canonical name and shows each
/// argument, in declaration order after the `<subcommand>` marker (when the
/// command has subcommands), as `<name>` when it is required and as
/// `[name]` when it is optional; the help page shows that line under
/// `USAGE`, and the Markdown page in its Usage block.
pub proof fn lemma_usage_shows_arguments(c: Command, j: int)
    requires
        0 <= j < c.arguments@.len(),
    ensures
        ({
            let a = c.arguments@[j];
            let k = 1 + (if c.subcommands@.len() > 0 {
                1int
            } else {
                0int
            }) + j;
            let word = if a.required {
                "<"@ + a.name@ + ">"@
            } else {
                "["@ + a.name@ + "]"@
            };
            &&& usage(c) == join(usage_parts(c), " "@)
            &&& usage_parts(c)[0] == c.canonical@
            &&& 0 <= k < usage_parts(c).len()
            &&& usage_parts(c)[k] == word
            &&& contains_seq(usage(c), word)
            &&& contains_seq(help_text(c), "USAGE\n    "@ + usage(c) + "\n\n"@)
            &&& contains_seq(markdown_text(c), "## Usage\n\n```\n"@ + usage(c) + "\n```\n\n"@)
        }),
{
    let a = c.arguments@[j];
    let parts = usage_parts(c);
    let sub: Seq<Seq<char>> = if c.subcommands@.len() > 0 {
        seq!["<subcommand>"@]
    } else {
        seq![]
    };
    let args = c.arguments@.map_values(|x: Argument| usage_arg(x));
    let fl: Seq<Seq<char>> = if c.flags@.len() > 0 {
        seq!["[flags]"@]
    } else {
        seq![]
    };
    assert(parts == seq![c.canonical@] + sub + args + fl);
    let k = 1 + sub.len() + j;
    assert(parts[k] == args[j]);
    crate::text::lemma_join_contains(parts, " "@, k);
    lemma_concat_contains(help_parts(c), 4);
    lemma_concat_contains(markdown_parts(c), 4);
}

/// Each argument has a row in the Arguments table of the Markdown page
/// whose Required column reads `true` when it is required and `false` when
/// it is optional.
pub proof fn lemma_markdown_argument_row(c: Command, j: int)
    requires
        0 <= j < c.arguments@.len(),
    ensures
        ({
            let a = c.arguments@[j];
            contains_seq(
                markdown_text(c),
                "| `"@ + a.name@ + "` | "@ + a.description@ + " | "@ + (if a.required {
                    "true"@
                } else {
                    "false"@
                }) + " |\n"@,
            )
        }),
{
    let lines = c.arguments@.map_values(|x: Argument| md_arg_line(x));
    let title = "## Arguments\n\n| Name | Description | Required |\n|------|-------------|----------|\n"@;
    lemma_concat_contains(lines, j);
    crate::text::lemma_contains_within(title, concat(lines), "\n"@, lines[j]);
    lemma_concat_contains(markdown_parts(c), 5);
    crate::text::lemma_contains_trans(markdown_text(c), title + concat(lines) + "\n"@, lines[j]);
}

/// Each flag has a row in the Flags table of the Markdown page whose
/// Required column reads `true` when it is required and `false` otherwise.
pub proof fn lemma_markdown_flag_row(c: Command, j: int)
    requires
        0 <= j < c.flags@.len(),
    ensures
        ({
            let f = c.flags@[j];
            contains_seq(
                markdown_text(c),
                "| `--"@ + f.name@ + "` | "@ + md_short(f) + " | "@ + f.description@ + " | "@ + (
                if f.required {
                    "true"@
                } else {
                    "false"@
                }) + " |\n"@,
            )
        }),
{
    let lines = c.flags@.map_values(|x: Flag| md_flag_line(x));
    let title = "## Flags\n\n| Flag | Short | Description | Required |\n|------|-------|-------------|----------|\n"@;
    lemma_concat_contains(lines, j);
    crate::text::lemma_contains_within(title, concat(lines), "\n"@, lines[j]);
    lemma_concat_contains(markdown_parts(c), 6);
    crate::text::lemma_contains_trans(markdown_text(c), title + concat(lines) + "\n"@, lines[j]);
}

/// The help page lists each argument as `<name>` with its description,
/// marked ` (required)` exactly when it is required.
pub proof fn lemma_help_argument_line(c: Command, j: int)
    requires
        0 <= j < c.arguments@.len(),
    ensures
        ({
            let a = c.arguments@[j];
            contains_seq(
                help_text(c),
                "    <"@ + a.name@ + ">  "@ + a.description@ + (if a.required {
                    " (required)"@
                } else {
                    seq![]
                }) + "\n"@,
            )
        }),
{
    let lines = c.arguments@.map_values(|x: Argument| help_arg_line(x));
    lemma_concat_contains(lines, j);
    crate::text::lemma_contains_within("ARGUMENTS\n"@, concat(lines), "\n"@, lines[j]);
    lemma_concat_contains(help_parts(c), 5);
    crate::text::lemma_contains_trans(help_text(c), "ARGUMENTS\n"@ + concat(lines) + "\n"@, lines[j]);
}

/// In the fish completion script, every flag of every command of the tree
/// (in the depth-first walk) has its line, which carries ` -r` exactly when
/// the flag takes a value.
pub proof fn lemma_fish_flag_line(program: Seq<char>, cmds: Seq<Command>, k: int, j: int)
    requires
        0 <= k < walk_all(cmds, seq![]).len(),
        0 <= j < walk_all(cmds, seq![])[k].1.flags@.len(),
    ensures
        ({
            let c = walk_all(cmds, seq![])[k].1;
            let f = c.flags@[j];
            contains_seq(
                completion_text(Shell::Fish, program, cmds),
                "complete -c "@ + program + " -n '__fish_seen_subcommand_from "@ + c.canonical@
                    + "' -l '"@ + f.name@ + "'"@ + (if f.takes_value {
                    " -r"@
                } else {
                    seq![]
                }) + fish_desc(f.description@) + "\n"@,
            )
        }),
{
    let w = walk_all(cmds, seq![]);
    let c = w[k].1;
    let lines = c.flags@.map_values(|f: Flag| fish_flag(program, c, f));
    lemma_concat_contains(lines, j);
    let per = w.map_values(|e: (Seq<Seq<char>>, Command)| fish_flags_of(program, e.1));
    lemma_concat_contains(per, k);
    crate::text::lemma_contains_trans(concat(per), per[k], lines[j]);
    let head = "# "@ + program + " fish completion\n# Add to ~/.config/fish/completions/"@ + program
        + ".fish\n\n"@ + concat(cmds.map_values(|x: Command| fish_top(program, x))) + "\n"@;
    crate::text::lemma_contains_within(head, concat(per), seq![], lines[j]);
    assert(head + concat(per) + seq![] =~= completion_text(Shell::Fish, program, cmds));
}

/// In the zsh completion script, every flag of every command of the tree
/// has its argument spec `'--name[description]'`, with `:value:_default`
/// after the bracket exactly when the flag takes a value (the flag's name stands in for an
/// empty description).
pub proof fn lemma_zsh_flag_spec(program: Seq<char>, cmds: Seq<Command>, k: int, j: int)
    requires
        0 <= k < walk_all(cmds, seq![]).len(),
        0 <= j < walk_all(cmds, seq![])[k].1.flags@.len(),
    ensures
        ({
            let f = walk_all(cmds, seq![])[k].1.flags@[j];
            let desc = if f.description@.len() == 0 {
                f.name@
            } else {
                f.description@
            };
            contains_seq(
                completion_text(Shell::Zsh, program, cmds),
                "    '--"@ + f.name@ + "["@ + desc + (if f.takes_value {
                    "]:value:_default'\n"@
                } else {
                    "]'\n"@
                }),
            )
        }),
{
    let w = walk_all(cmds, seq![]);
    let e = w[k];
    let c = e.1;
    let f = c.flags@[j];
    let desc = if f.description@.len() == 0 {
        f.name@
    } else {
        f.description@
    };
    let line = "    '--"@ + f.name@ + "["@ + desc + (if f.takes_value {
        "]:value:_default'\n"@
    } else {
        "]'\n"@
    });
    let specs = c.flags@.map_values(|x: Flag| zsh_flag_spec(x));
    assert(specs[j] =~= line);
    lemma_concat_contains(specs, j);
    let head = "  ("@ + replace_with(join(e.0, seq!['.']), '.', "-"@) + ")\n    _arguments \\\n"@;
    crate::text::lemma_contains_within(head, concat(specs), "  ;;\n"@, line);
    assert(zsh_case(e.0, c) == head + concat(specs) + "  ;;\n"@);
    let cases = w.map_values(|x: (Seq<Seq<char>>, Command)| zsh_case(x.0, x.1));
    lemma_concat_contains(cases, k);
    crate::text::lemma_contains_trans(concat(cases), cases[k], line);
    let parts = seq![
        "#compdef "@,
        program,
        "\n# "@,
        program,
        " zsh completion\n\n_"@,
        program,
        "() {\n  local state\n\n  _arguments \\\n    '1: :"@,
        program,
        "_commands' \\\n    '*:: :->subcommand'\n\n  case $state in\n    subcommand)\n      case $words[1] in\n"@,
        concat(cases),
        "      esac\n  esac\n}\n\n_"@,
        program,
        "_commands() {\n  local -a commands\n  commands=(\n"@,
        concat(cmds.map_values(|x: Command| zsh_command_line(x))),
        "  )\n  _describe 'command' commands\n}\n\n_"@,
        program,
        "\n"@,
    ];
    assert(zsh_completion(program, cmds) == concat(parts));
    lemma_concat_contains(parts, 9);
    crate::text::lemma_contains_trans(concat(parts), concat(cases), line);
}

/// In the bash completion script, every command of the tree that has flags
/// offers each of them as the word `--name`.
pub proof fn lemma_bash_flag_word(program: Seq<char>, cmds: Seq<Command>, k: int, j: int)
    requires
        0 <= k < walk_all(cmds, seq![]).len(),
        0 <= j < walk_all(cmds, seq![])[k].1.flags@.len(),
    ensures
        contains_seq(
            completion_text(Shell::Bash, program, cmds),
            "--"@ + walk_all(cmds, seq![])[k].1.flags@[j].name@,
        ),
{
    let w = walk_all(cmds, seq![]);
    let e = w[k];
    let c = e.1;
    lemma_bash_completion(program, cmds);
    let words = c.flags@.map_values(|f: Flag| "--"@ + f.name@);
    crate::text::lemma_join_contains(words, " "@, j);
    let head = "        "@ + join(e.0, seq!['.']) + ")\n            COMPREPLY=($(compgen -W \""@;
    let tail = "\" -- \"$cur\"))\n            return\n            ;;\n"@;
    crate::text::lemma_contains_within(head, join(words, " "@), tail, words[j]);
    assert(bash_case(e.0, c) == head + join(words, " "@) + tail);
    crate::text::lemma_contains_trans(bash_completion(program, cmds), bash_case(e.0, c), words[j]);
}

/// The help page names the command (with its aliases in parentheses when
/// it has any), shows its summary and description when they are not empty,
/// warns when it is mutating, and lists each flag with its short form,
/// `--name`, description and ` (required)` exactly when it is required.
pub proof fn lemma_help_header(c: Command)
    ensures
        c.aliases@.len() == 0 ==> contains_seq(help_text(c), "NAME\n    "@ + c.canonical@ + "\n\n"@),
        c.aliases@.len() > 0 ==> contains_seq(
            help_text(c),
            "NAME\n    "@ + c.canonical@ + " ("@ + join(views(c.aliases@), ", "@) + ")"@ + "\n\n"@,
        ),
        c.summary@.len() > 0 ==> contains_seq(help_text(c), "SUMMARY\n    "@ + c.summary@ + "\n\n"@),
        c.description@.len() > 0 ==> contains_seq(
            help_text(c),
            "DESCRIPTION\n    "@ + c.description@ + "\n\n"@,
        ),
        c.mutating ==> contains_seq(help_text(c), "⚠  MUTATING COMMAND\n"@),
        forall|j: int|
            0 <= j < c.flags@.len() ==> contains_seq(
                help_text(c),
                "    "@ + (match (#[trigger] c.flags@[j]).short {
                    Some(ch) => seq!['-', ch] + ", "@,
                    None => seq![],
                }) + "--"@ + c.flags@[j].name@ + "  "@ + c.flags@[j].description@ + (if c.flags@[j].required {
                    " (required)"@
                } else {
                    seq![]
                }) + "\n"@,
            ),
{
    let parts = help_parts(c);
    lemma_concat_contains(parts, 0);
    lemma_concat_contains(parts, 1);
    lemma_concat_contains(parts, 3);
    lemma_concat_contains(parts, 2);
    if c.mutating {
        crate::text::lemma_contains_self("⚠  MUTATING COMMAND\n"@);
        let tail = (if has_dry_run(c) {
            seq![]
        } else {
            "  This command modifies state. Consider adding --dry-run support.\n"@
        }) + "\n"@;
        crate::text::lemma_contains_within(seq![], "⚠  MUTATING COMMAND\n"@, tail, "⚠  MUTATING COMMAND\n"@);
        assert(seq![] + "⚠  MUTATING COMMAND\n"@ + tail =~= mutating_note(c));
        crate::text::lemma_contains_trans(help_text(c), mutating_note(c), "⚠  MUTATING COMMAND\n"@);
    }
    if c.aliases@.len() > 0 {
        assert(parts[0] =~= "NAME\n    "@ + c.canonical@ + " ("@ + join(views(c.aliases@), ", "@) + ")"@ + "\n\n"@);
    }
    let lines = c.flags@.map_values(|x: Flag| help_flag_line(x));
    lemma_concat_contains(parts, 6);
    assert forall|j: int| 0 <= j < c.flags@.len() implies contains_seq(
        help_text(c),
        "    "@ + (match (#[trigger] c.flags@[j]).short {
            Some(ch) => seq!['-', ch] + ", "@,
            None => seq![],
        }) + "--"@ + c.flags@[j].name@ + "  "@ + c.flags@[j].description@ + (if c.flags@[j].required {
            " (required)"@
        } else {
            seq![]
        }) + "\n"@,
    ) by {
        lemma_concat_contains(lines, j);
        crate::text::lemma_contains_within("FLAGS\n"@, concat(lines), "\n"@, lines[j]);
        crate::text::lemma_contains_trans(help_text(c), "FLAGS\n"@ + concat(lines) + "\n"@, lines[j]);
    }
}

/// The Markdown page starts with the command's name as its title, shows
/// its summary and description when they are not empty, and marks it when
/// it is mutating.
pub proof fn lemma_markdown_header(c: Command)
    ensures
        crate::text::starts_with(markdown_text(c), "# "@ + c.canonical@ + "\n\n"@),
        c.summary@.len() > 0 ==> contains_seq(markdown_text(c), c.summary@ + "\n\n"@),
        c.description@.len() > 0 ==> contains_seq(
            markdown_text(c),
            "## Description\n\n"@ + c.description@ + "\n\n"@,
        ),
        c.mutating ==> contains_seq(
            markdown_text(c),
            "> ⚠ **Mutating command** — this operation modifies state.\n\n"@,
        ),
{
    let parts = markdown_parts(c);
    crate::text::lemma_concat_prefix(parts, 1, parts.len() as int);
    crate::text::lemma_concat_all(parts);
    crate::text::lemma_concat_take(parts, 0);
    assert(parts.take(0) =~= Seq::<Seq<char>>::empty());
    lemma_concat_contains(parts, 1);
    lemma_concat_contains(parts, 2);
    lemma_concat_contains(parts, 3);
    reveal_strlit("");
    assert(""@ + c.summary@ + "\n\n"@ =~= c.summary@ + "\n\n"@);
}

} // verus!
