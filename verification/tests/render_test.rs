use argot_cmd::flag::Flag;
use argot_cmd::model::{Argument, Command, Example};
use argot_cmd::query::Registry;
use argot_cmd::render::{
    json_schema, render_ambiguity, render_completion, render_docs, render_frontmatter,
    render_help, render_markdown, render_resolve_error, render_skill_file,
    render_skill_file_with_frontmatter, render_skill_files, render_skill_files_with_frontmatter,
    render_subcommand_list, DefaultRenderer, JsonSchema, Renderer, SchemaDefault, SchemaProperty,
    SchemaType, Shell, SkillFrontmatter,
};
use argot_cmd::resolver::ResolveError;

fn full_command() -> Command {
    Command::builder("deploy")
        .alias("d")
        .summary("Deploy a service")
        .description("Deploys the given service to an environment.")
        .argument(
            Argument::builder("env").description("target environment").required().build().unwrap(),
        )
        .flag(Flag::builder("dry-run").short('n').description("simulate only").build().unwrap())
        .subcommand(Command::builder("rollback").summary("Roll back").build().unwrap())
        .example(Example::new("deploy to prod", "deploy prod").with_output("deployed"))
        .best_practice("always dry-run first")
        .anti_pattern("deploy on Friday")
        .build()
        .unwrap()
}

fn prop<'a>(schema: &'a JsonSchema, name: &str) -> &'a SchemaProperty {
    &schema.properties.iter().find(|(k, _)| k == name).unwrap().1
}

#[test]
fn test_render_help_contains_all_sections() {
    let cmd = full_command();
    let help = render_help(&cmd);
    for section in [
        "NAME",
        "SUMMARY",
        "DESCRIPTION",
        "USAGE",
        "ARGUMENTS",
        "FLAGS",
        "SUBCOMMANDS",
        "EXAMPLES",
        "BEST PRACTICES",
        "ANTI-PATTERNS",
    ] {
        assert!(help.contains(section), "missing {}", section);
    }
}

#[test]
fn test_render_help_omits_empty_sections() {
    let cmd = Command::builder("simple").summary("Simple").build().unwrap();
    let help = render_help(&cmd);
    assert!(!help.contains("ARGUMENTS"));
    assert!(!help.contains("FLAGS"));
    assert!(!help.contains("SUBCOMMANDS"));
    assert!(!help.contains("EXAMPLES"));
    assert!(!help.contains("BEST PRACTICES"));
    assert!(!help.contains("ANTI-PATTERNS"));
}

#[test]
fn test_render_help_shows_alias() {
    let cmd = full_command();
    let help = render_help(&cmd);
    assert!(help.contains('d'));
}

#[test]
fn test_render_markdown_starts_with_heading() {
    let md = render_markdown(&full_command());
    assert!(md.starts_with("# deploy"));
}

#[test]
fn test_render_markdown_contains_table() {
    let md = render_markdown(&full_command());
    assert!(md.contains("| `env`"));
    assert!(md.contains("| `--dry-run`"));
}

#[test]
fn test_render_ambiguity() {
    let candidates = vec!["list".to_string(), "log".to_string()];
    let msg = render_ambiguity("l", &candidates);
    assert!(msg.contains("Did you mean"));
    assert!(msg.contains("list"));
    assert!(msg.contains("log"));
}

#[test]
fn test_render_subcommand_list() {
    let cmds = vec![
        Command::builder("a").summary("alpha").build().unwrap(),
        Command::builder("b").summary("beta").build().unwrap(),
    ];
    let out = render_subcommand_list(&cmds);
    assert!(out.contains("alpha"));
    assert!(out.contains("beta"));
}

#[test]
fn test_render_resolve_error_unknown_no_suggestions() {
    let err = ResolveError::Unknown { input: "xyz".to_string(), suggestions: vec![] };
    let msg = render_resolve_error(&err);
    assert!(msg.contains("xyz"));
    assert!(!msg.contains("Did you mean"));
}

#[test]
fn test_render_resolve_error_unknown_with_suggestions() {
    let err =
        ResolveError::Unknown { input: "lst".to_string(), suggestions: vec!["list".to_string()] };
    let msg = render_resolve_error(&err);
    assert!(msg.contains("lst") && msg.contains("list") && msg.contains("Did you mean"));
}

#[test]
fn test_render_resolve_error_ambiguous() {
    let err = ResolveError::Ambiguous {
        input: "l".to_string(),
        candidates: vec!["list".to_string(), "log".to_string()],
    };
    let msg = render_resolve_error(&err);
    assert!(msg.contains("list") && msg.contains("log"));
}

#[test]
fn test_default_renderer_delegates() {
    let cmd = Command::builder("test").summary("A test command").build().unwrap();
    let r = DefaultRenderer;
    let help = r.render_help(&cmd);
    assert!(help.contains("test"));
    let md = r.render_markdown(&cmd);
    assert!(md.starts_with("# test"));
}

#[test]
fn test_custom_renderer_via_cli() {
    struct Upper;
    impl Renderer for Upper {
        fn render_help(&self, c: &Command) -> String {
            render_help(c).to_uppercase()
        }
        fn render_markdown(&self, c: &Command) -> String {
            render_markdown(c)
        }
        fn render_subcommand_list(&self, cs: &[Command]) -> String {
            render_subcommand_list(cs)
        }
        fn render_ambiguity(&self, i: &str, cs: &[String]) -> String {
            render_ambiguity(i, cs)
        }
    }
    let cmd = Command::builder("ping").summary("pong").build().unwrap();
    let help = Upper.render_help(&cmd);
    assert!(help.contains("PING"));
    assert!(Upper.render_docs(&Registry::new(vec![cmd])).contains("# Commands"));
}

#[test]
fn test_render_completion_bash_contains_program() {
    let reg = Registry::new(vec![
        Command::builder("deploy").build().unwrap(),
        Command::builder("status").build().unwrap(),
    ]);
    let script = render_completion(Shell::Bash, "mytool", &reg);
    assert!(script.contains("mytool"));
    assert!(script.contains("deploy"));
    assert!(script.contains("status"));
}

#[test]
fn test_render_completion_zsh_contains_program() {
    let reg = Registry::new(vec![Command::builder("run").build().unwrap()]);
    let script = render_completion(Shell::Zsh, "mytool", &reg);
    assert!(script.contains("mytool") && script.contains("run"));
}

#[test]
fn test_render_completion_fish_contains_program() {
    let reg = Registry::new(vec![Command::builder("run").build().unwrap()]);
    let script = render_completion(Shell::Fish, "mytool", &reg);
    assert!(script.contains("mytool") && script.contains("run"));
}

#[test]
fn test_render_completion_bash_includes_flags() {
    let reg = Registry::new(vec![Command::builder("deploy")
        .flag(Flag::builder("env").takes_value().build().unwrap())
        .flag(Flag::builder("dry-run").build().unwrap())
        .build()
        .unwrap()]);
    let script = render_completion(Shell::Bash, "t", &reg);
    assert!(script.contains("--env"));
    assert!(script.contains("--dry-run"));
}

#[test]
fn test_render_json_schema_properties() {
    let cmd = Command::builder("deploy")
        .summary("Deploy a service")
        .argument(Argument::builder("env").required().description("Target env").build().unwrap())
        .flag(Flag::builder("dry-run").description("Simulate").build().unwrap())
        .flag(
            Flag::builder("strategy")
                .takes_value()
                .choices(&["rolling", "canary"])
                .build()
                .unwrap(),
        )
        .build()
        .unwrap();
    let schema = json_schema(&cmd);
    assert_eq!(schema.title, "deploy");
    assert_eq!(schema.description.as_deref(), Some("Deploy a service"));
    assert_eq!(prop(&schema, "env").ty, SchemaType::Str);
    assert_eq!(prop(&schema, "dry-run").ty, SchemaType::Boolean);
    assert_eq!(prop(&schema, "strategy").ty, SchemaType::Str);
    assert_eq!(prop(&schema, "strategy").choices.as_ref().unwrap()[0], "rolling");
    assert!(schema.required.contains(&"env".to_string()));
}

#[test]
fn test_render_json_schema_empty_command() {
    let cmd = Command::builder("ping").build().unwrap();
    let schema = json_schema(&cmd);
    assert_eq!(schema.title, "ping");
    assert!(schema.required.is_empty());
}

#[test]
fn test_render_json_schema_returns_result() {
    let cmd = Command::builder("ping").build().unwrap();
    let schema = json_schema(&cmd);
    assert!(schema.properties.is_empty());
    assert!(!schema.mutating);
}

#[test]
fn test_spellings_not_in_help_output() {
    let cmd = Command::builder("deploy").alias("release").spelling("deply").build().unwrap();
    let help = render_help(&cmd);
    assert!(help.contains("release"), "alias should appear in help");
    assert!(!help.contains("deply"), "spelling must not appear in help");
}

#[test]
fn test_semantic_aliases_not_in_help_output() {
    let cmd = Command::builder("deploy")
        .alias("d")
        .semantic_alias("release to production")
        .semantic_alias("push to environment")
        .summary("Deploy a service")
        .build()
        .unwrap();
    let help = render_help(&cmd);
    assert!(help.contains("d"));
    assert!(!help.contains("release to production"));
    assert!(!help.contains("push to environment"));
}

fn docs_registry() -> Registry {
    Registry::new(vec![
        Command::builder("deploy")
            .summary("Deploy the application")
            .subcommand(
                Command::builder("rollback").summary("Roll back a deployment").build().unwrap(),
            )
            .build()
            .unwrap(),
        Command::builder("status").summary("Show status").build().unwrap(),
    ])
}

#[test]
fn test_render_docs_contains_all_commands() {
    let docs = render_docs(&docs_registry());
    assert!(docs.contains("# Commands"));
    assert!(docs.contains("deploy"));
    assert!(docs.contains("rollback"));
    assert!(docs.contains("status"));
    assert!(docs.contains("---"));
}

#[test]
fn test_render_docs_table_of_contents_indents_subcommands() {
    let docs = render_docs(&docs_registry());
    assert!(docs.contains("\n- [deploy](#deploy)"));
    assert!(docs.contains("\n  - [deploy rollback](#deploy-rollback)"));
    assert!(docs.contains("\n- [status](#status)"));
}

#[test]
fn test_render_docs_empty_registry() {
    let docs = render_docs(&Registry::new(vec![]));
    assert!(docs.starts_with("# Commands\n\n"));
    assert!(!docs.contains("---"));
}

#[test]
fn test_default_renderer_render_docs() {
    let docs = DefaultRenderer.render_docs(&docs_registry());
    assert!(docs.contains("# Commands"));
    assert!(docs.contains("deploy"));
    assert!(docs.contains("status"));
}

#[test]
fn test_render_completion_zsh_with_flags_and_args() {
    let reg = Registry::new(vec![
        Command::builder("deploy")
            .summary("Deploy")
            .flag(Flag::builder("env").takes_value().description("target env").build().unwrap())
            .flag(Flag::builder("dry-run").description("simulate").build().unwrap())
            .argument(Argument::builder("service").required().build().unwrap())
            .build()
            .unwrap(),
        Command::builder("status").build().unwrap(),
    ]);
    let script = render_completion(Shell::Zsh, "mytool", &reg);
    assert!(script.contains("mytool"));
    assert!(script.contains("deploy"));
    assert!(script.contains("--env"));
    assert!(script.contains("--dry-run"));
}

#[test]
fn test_render_completion_zsh_empty_summary_uses_canonical() {
    let reg = Registry::new(vec![Command::builder("run").build().unwrap()]);
    let script = render_completion(Shell::Zsh, "mytool", &reg);
    assert!(script.contains("run:run"));
}

#[test]
fn test_render_completion_fish_with_flags() {
    let reg = Registry::new(vec![Command::builder("deploy")
        .summary("Deploy the app")
        .flag(
            Flag::builder("env").takes_value().description("target environment").build().unwrap(),
        )
        .flag(Flag::builder("dry-run").description("simulate").build().unwrap())
        .build()
        .unwrap()]);
    let script = render_completion(Shell::Fish, "mytool", &reg);
    assert!(script.contains("mytool"));
    assert!(script.contains("deploy"));
    assert!(script.contains("--env") || script.contains("'env'"));
    assert!(script.contains("-r"));
    assert!(script.contains("Deploy the app"));
}

#[test]
fn test_render_completion_fish_empty_summary() {
    let reg = Registry::new(vec![Command::builder("run").build().unwrap()]);
    let script = render_completion(Shell::Fish, "mytool", &reg);
    assert!(script.contains("run"));
}

#[test]
fn test_render_completion_bash_no_flags_cmd() {
    let reg = Registry::new(vec![Command::builder("status").build().unwrap()]);
    let script = render_completion(Shell::Bash, "app", &reg);
    assert!(script.contains("status"));
}

#[test]
fn test_render_json_schema_variadic_arg() {
    let cmd = Command::builder("run")
        .argument(
            Argument::builder("files").variadic().description("Files to process").build().unwrap(),
        )
        .build()
        .unwrap();
    let schema = json_schema(&cmd);
    assert_eq!(prop(&schema, "files").ty, SchemaType::Array);
    assert!(prop(&schema, "files").description.is_some());
}

#[test]
fn test_render_json_schema_flag_with_default() {
    let cmd = Command::builder("run")
        .flag(
            Flag::builder("output")
                .takes_value()
                .default_value("text")
                .description("Output format")
                .build()
                .unwrap(),
        )
        .build()
        .unwrap();
    let schema = json_schema(&cmd);
    assert_eq!(prop(&schema, "output").default, Some(SchemaDefault::Text("text".to_string())));
    assert_eq!(prop(&schema, "output").ty, SchemaType::Str);
}

#[test]
fn test_render_json_schema_required_flag() {
    let cmd = Command::builder("deploy")
        .flag(Flag::builder("env").takes_value().required().build().unwrap())
        .build()
        .unwrap();
    let schema = json_schema(&cmd);
    assert!(schema.required.contains(&"env".to_string()));
}

#[test]
fn test_render_json_schema_arg_with_default() {
    let cmd = Command::builder("run")
        .argument(Argument::builder("target").default_value("prod").build().unwrap())
        .build()
        .unwrap();
    let schema = json_schema(&cmd);
    assert_eq!(prop(&schema, "target").default, Some(SchemaDefault::Text("prod".to_string())));
}

#[test]
fn test_render_help_output_in_example() {
    let cmd = Command::builder("run")
        .example(Example::new("Run example", "myapp run").with_output("OK"))
        .build()
        .unwrap();
    assert!(render_help(&cmd).contains("# Output: OK"));
}

#[test]
fn test_render_markdown_with_best_practices_and_anti_patterns() {
    let cmd = Command::builder("deploy")
        .best_practice("Always dry-run first")
        .anti_pattern("Deploy on Fridays")
        .build()
        .unwrap();
    let md = render_markdown(&cmd);
    assert!(md.contains("## Best Practices"));
    assert!(md.contains("Always dry-run first"));
    assert!(md.contains("## Anti-Patterns"));
    assert!(md.contains("Deploy on Fridays"));
}

#[test]
fn test_render_markdown_with_subcommands() {
    let cmd = Command::builder("remote")
        .subcommand(Command::builder("add").summary("Add remote").build().unwrap())
        .build()
        .unwrap();
    let md = render_markdown(&cmd);
    assert!(md.contains("## Subcommands"));
    assert!(md.contains("**add**"));
}

fn skill_full_command() -> Command {
    Command::builder("deploy")
        .summary("Deploy the application")
        .description("Deploys the app to the target environment.")
        .argument(
            Argument::builder("env").description("Target environment").required().build().unwrap(),
        )
        .flag(
            Flag::builder("dry-run")
                .short('n')
                .description("Simulate without changes")
                .build()
                .unwrap(),
        )
        .flag(
            Flag::builder("strategy")
                .takes_value()
                .default_value("rolling")
                .description("Rollout strategy")
                .build()
                .unwrap(),
        )
        .subcommand(Command::builder("rollback").summary("Roll back a deployment").build().unwrap())
        .example(Example::new("deploy to prod", "deploy prod"))
        .example(
            Example::new("dry-run deploy", "deploy prod --dry-run")
                .with_output("Would deploy to prod"),
        )
        .best_practice("always dry-run first")
        .best_practice("pin the image tag")
        .anti_pattern("deploy on Friday")
        .anti_pattern("skip the dry-run")
        .build()
        .unwrap()
}

#[test]
fn test_render_skill_file_heading() {
    assert!(render_skill_file(&skill_full_command()).starts_with("# Skill: deploy\n"));
}

#[test]
fn test_render_skill_file_summary_and_description() {
    let skill = render_skill_file(&skill_full_command());
    assert!(skill.contains("Deploy the application"));
    assert!(skill.contains("Deploys the app to the target environment."));
}

#[test]
fn test_render_skill_file_safe_usage_section() {
    let skill = render_skill_file(&skill_full_command());
    assert!(skill.contains("## Safe Usage"));
    assert!(skill.contains("Always prefer:"));
    assert!(skill.contains("- always dry-run first"));
    assert!(skill.contains("- pin the image tag"));
}

#[test]
fn test_render_skill_file_avoid_section() {
    let skill = render_skill_file(&skill_full_command());
    assert!(skill.contains("## Avoid"));
    assert!(skill.contains("- deploy on Friday"));
    assert!(skill.contains("- skip the dry-run"));
}

#[test]
fn test_render_skill_file_arguments_table() {
    let skill = render_skill_file(&skill_full_command());
    assert!(skill.contains("## Arguments"));
    assert!(skill.contains("| env | yes | Target environment |"));
}

#[test]
fn test_render_skill_file_flags_table() {
    let skill = render_skill_file(&skill_full_command());
    assert!(skill.contains("## Flags"));
    assert!(skill.contains("| --dry-run | -n | no | — | Simulate without changes |"));
    assert!(skill.contains("| --strategy | — | no | rolling | Rollout strategy |"));
}

#[test]
fn test_render_skill_file_examples_section() {
    let skill = render_skill_file(&skill_full_command());
    assert!(skill.contains("## Examples"));
    assert!(skill.contains("```\ndeploy prod\n```"));
    assert!(skill.contains("> deploy to prod"));
    assert!(skill.contains("```\ndeploy prod --dry-run\n```"));
    assert!(skill.contains("> dry-run deploy"));
}

#[test]
fn test_render_skill_file_subcommands_section() {
    let skill = render_skill_file(&skill_full_command());
    assert!(skill.contains("## Subcommands"));
    assert!(skill.contains("- `rollback` — Roll back a deployment"));
}

#[test]
fn test_render_skill_file_omits_empty_sections() {
    let cmd = Command::builder("ping").summary("Check connectivity").build().unwrap();
    let skill = render_skill_file(&cmd);
    assert!(skill.contains("# Skill: ping"));
    assert!(skill.contains("Check connectivity"));
    for section in
        ["## Safe Usage", "## Avoid", "## Arguments", "## Flags", "## Examples", "## Subcommands"]
    {
        assert!(!skill.contains(section), "{} must be omitted", section);
    }
}

#[test]
fn test_render_skill_file_no_summary_or_description() {
    let cmd = Command::builder("ping").build().unwrap();
    assert!(render_skill_file(&cmd).starts_with("# Skill: ping\n"));
}

#[test]
fn test_render_skill_file_flag_required_shown() {
    let cmd = Command::builder("deploy")
        .flag(
            Flag::builder("env")
                .takes_value()
                .required()
                .description("Target environment")
                .build()
                .unwrap(),
        )
        .build()
        .unwrap();
    assert!(render_skill_file(&cmd).contains("| --env | — | yes | — | Target environment |"));
}

fn skill_registry() -> Registry {
    Registry::new(vec![
        Command::builder("deploy")
            .summary("Deploy the application")
            .best_practice("always dry-run first")
            .subcommand(
                Command::builder("rollback").summary("Roll back a deployment").build().unwrap(),
            )
            .build()
            .unwrap(),
        Command::builder("status").summary("Show status").build().unwrap(),
    ])
}

#[test]
fn test_render_skill_files_contains_all_commands() {
    let skills = render_skill_files(&skill_registry());
    assert!(skills.contains("# Skill: deploy"));
    assert!(skills.contains("# Skill: rollback"));
    assert!(skills.contains("# Skill: status"));
}

#[test]
fn test_render_skill_files_separated_by_separator() {
    assert!(render_skill_files(&skill_registry()).contains("---\n\n"));
}

#[test]
fn test_render_skill_files_empty_registry() {
    assert!(render_skill_files(&Registry::new(vec![])).is_empty());
}

#[test]
fn test_render_skill_files_single_command_no_separator() {
    let reg = Registry::new(vec![Command::builder("ping").summary("Ping").build().unwrap()]);
    let skills = render_skill_files(&reg);
    assert!(skills.contains("# Skill: ping"));
    assert!(!skills.contains("---"));
}

#[test]
fn test_default_renderer_render_skill_file() {
    let cmd =
        Command::builder("deploy").summary("Deploy").best_practice("dry-run first").build().unwrap();
    let skill = DefaultRenderer.render_skill_file(&cmd);
    assert!(skill.contains("# Skill: deploy"));
    assert!(skill.contains("## Safe Usage"));
}

#[test]
fn test_default_renderer_render_skill_files() {
    let skills = DefaultRenderer.render_skill_files(&skill_registry());
    assert!(skills.contains("# Skill: deploy"));
    assert!(skills.contains("# Skill: status"));
}

#[test]
fn test_render_help_mutating_shows_warning() {
    let cmd = Command::builder("delete").summary("Delete a resource").mutating().build().unwrap();
    let help = render_help(&cmd);
    assert!(help.contains("MUTATING COMMAND"));
    assert!(help.contains("Consider adding --dry-run support"));
}

#[test]
fn test_render_help_mutating_with_dry_run_no_note() {
    let cmd = Command::builder("delete")
        .summary("Delete a resource")
        .flag(Flag::builder("dry-run").description("Simulate only").build().unwrap())
        .mutating()
        .build()
        .unwrap();
    let help = render_help(&cmd);
    assert!(help.contains("MUTATING COMMAND"));
    assert!(!help.contains("Consider adding --dry-run support"));
}

#[test]
fn test_render_help_non_mutating_no_warning() {
    let cmd = Command::builder("list").summary("List resources").build().unwrap();
    assert!(!render_help(&cmd).contains("MUTATING COMMAND"));
}

#[test]
fn test_render_markdown_mutating_blockquote() {
    let cmd = Command::builder("delete").summary("Delete a resource").mutating().build().unwrap();
    assert!(render_markdown(&cmd).contains("> ⚠ **Mutating command**"));
}

#[test]
fn test_render_markdown_non_mutating_no_blockquote() {
    let cmd = Command::builder("list").summary("List resources").build().unwrap();
    assert!(!render_markdown(&cmd).contains("> ⚠ **Mutating command**"));
}

#[test]
fn test_render_json_schema_mutating_flag_in_schema() {
    let cmd = Command::builder("delete").summary("Delete a resource").mutating().build().unwrap();
    assert!(json_schema(&cmd).mutating);
}

#[test]
fn test_render_json_schema_non_mutating_no_flag() {
    let cmd = Command::builder("list").build().unwrap();
    assert!(!json_schema(&cmd).mutating);
}

#[test]
fn test_skill_frontmatter_all_fields() {
    let cmd = Command::builder("deploy").summary("Deploy the app").build().unwrap();
    let fm = SkillFrontmatter::new("mytool-deploy")
        .version("1.2.3")
        .description("Custom description")
        .requires_bin("mytool")
        .requires_bin("jq")
        .extra("min_role", "\"ops\"")
        .extra("priority", "42");
    let text = render_frontmatter(&fm, &cmd);
    assert!(text.starts_with("---\n"));
    assert!(text.ends_with("---\n"));
    assert!(text.contains("name: mytool-deploy\n"));
    assert!(text.contains("version: 1.2.3\n"));
    assert!(text.contains("description: Custom description\n"));
    assert!(text.contains("requires_bins:\n"));
    assert!(text.contains("  - mytool\n"));
    assert!(text.contains("  - jq\n"));
    assert!(text.contains("extra:\n"));
    assert!(text.contains("  min_role:"));
    assert!(text.contains("  priority:"));
    assert!(text.find("  min_role:").unwrap() < text.find("  priority:").unwrap());
}

#[test]
fn test_skill_frontmatter_version_none_omits_line() {
    let cmd = Command::builder("ping").build().unwrap();
    assert!(!render_frontmatter(&SkillFrontmatter::new("ping"), &cmd).contains("version:"));
}

#[test]
fn test_skill_frontmatter_requires_bins_empty_omits_block() {
    let cmd = Command::builder("ping").build().unwrap();
    assert!(!render_frontmatter(&SkillFrontmatter::new("ping"), &cmd).contains("requires_bins:"));
}

#[test]
fn test_skill_frontmatter_extra_empty_omits_block() {
    let cmd = Command::builder("ping").build().unwrap();
    assert!(!render_frontmatter(&SkillFrontmatter::new("ping"), &cmd).contains("extra:"));
}

#[test]
fn test_skill_frontmatter_description_falls_back_to_cmd_summary() {
    let cmd = Command::builder("deploy").summary("Deploy the application").build().unwrap();
    let text = render_frontmatter(&SkillFrontmatter::new("mytool-deploy"), &cmd);
    assert!(text.contains("description: Deploy the application\n"));
}

#[test]
fn test_skill_frontmatter_description_explicit_overrides_summary() {
    let cmd = Command::builder("deploy").summary("Deploy the application").build().unwrap();
    let fm = SkillFrontmatter::new("mytool-deploy").description("My custom description");
    let text = render_frontmatter(&fm, &cmd);
    assert!(text.contains("description: My custom description\n"));
    assert!(!text.contains("Deploy the application"));
}

#[test]
fn test_render_skill_file_with_frontmatter_starts_with_dashes() {
    let cmd = Command::builder("deploy").summary("Deploy the app").build().unwrap();
    let fm = SkillFrontmatter::new("mytool-deploy").version("1.0.0");
    let skill = render_skill_file_with_frontmatter(&cmd, &fm);
    assert!(skill.starts_with("---\n"));
    assert!(skill.contains("name: mytool-deploy\n"));
    assert!(skill.contains("version: 1.0.0\n"));
    assert!(skill.contains("# Skill: deploy"));
}

#[test]
fn test_render_skill_file_basic() {
    let cmd = Command::builder("deploy").summary("Deploy the app").build().unwrap();
    let skill = render_skill_file(&cmd);
    assert!(skill.starts_with("# Skill: deploy"));
    assert!(skill.contains("Deploy the app"));
}

#[test]
fn test_render_skill_files_with_frontmatter_none_falls_back_to_plain() {
    let registry = Registry::new(vec![
        Command::builder("deploy").summary("Deploy").build().unwrap(),
        Command::builder("status").summary("Status").build().unwrap(),
    ]);
    let output = render_skill_files_with_frontmatter(&registry, |cmd: &Command| {
        if cmd.canonical == "deploy" {
            Some(SkillFrontmatter::new("mytool-deploy"))
        } else {
            None
        }
    });
    assert!(output.contains("name: mytool-deploy"));
    assert!(output.contains("# Skill: deploy"));
    assert!(output.contains("# Skill: status"));
    let status_part =
        output.split("# Skill: status").next().unwrap_or("").rsplit("---").next().unwrap_or("");
    assert!(!status_part.contains("name: mytool-status"));
}

#[test]
fn test_render_skill_files_with_frontmatter_all_with_fm() {
    let registry = Registry::new(vec![
        Command::builder("deploy").summary("Deploy").build().unwrap(),
        Command::builder("status").summary("Status").build().unwrap(),
    ]);
    let output = render_skill_files_with_frontmatter(&registry, |cmd: &Command| {
        Some(SkillFrontmatter::new(&format!("tool-{}", cmd.canonical)))
    });
    assert!(output.contains("name: tool-deploy"));
    assert!(output.contains("name: tool-status"));
}

#[test]
fn test_default_renderer_skill_frontmatter_delegation() {
    let cmd = Command::builder("deploy").summary("Deploy the app").build().unwrap();
    let fm = SkillFrontmatter::new("mytool-deploy").version("1.0.0");
    let single = DefaultRenderer.render_skill_file_with_frontmatter(&cmd, &fm);
    assert!(single.starts_with("---\n"));
    assert!(single.contains("name: mytool-deploy"));
    let registry = Registry::new(vec![Command::builder("deploy").build().unwrap()]);
    let all = render_skill_files_with_frontmatter(&registry, |c: &Command| {
        Some(SkillFrontmatter::new(&format!("t-{}", c.canonical)))
    });
    assert!(all.contains("name: t-deploy"));
}

#[test]
fn render_ambiguity_exact_text() {
    let msg = render_ambiguity("l", &["list".to_string(), "log".to_string()]);
    assert_eq!(msg, "Ambiguous command \"l\". Did you mean one of:\n  - list\n  - log");
}
