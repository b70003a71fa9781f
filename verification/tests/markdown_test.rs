use argot_cmd::markdown::{
    find_project_dir, load_one, scalar_to_json, split_frontmatter, unquote, user_config_dir,
    ConfigEnv, DirListing, MarkdownDirSource, MarkdownFile,
};
use argot_cmd::source::{merge_loads, Layer, LoadDiagnostic, SourceLoad};

const DIR: &str = "/work/commands";

fn file(name: &str, content: &str) -> MarkdownFile {
    MarkdownFile {
        name: name.to_string(),
        path: format!("{}/{}", DIR, name),
        content: Ok(content.to_string()),
    }
}

fn load_files(src: &MarkdownDirSource, files: Vec<MarkdownFile>) -> SourceLoad {
    src.load_listing(DirListing::Listed { entry_errors: Vec::new(), files })
}

fn load_one_file(content: &str, layer: Layer) -> SourceLoad {
    let src = MarkdownDirSource::new("t", DIR, layer);
    load_files(&src, vec![file("x.md", content)])
}

fn schema_field(d: &LoadDiagnostic) -> Option<&str> {
    match d {
        LoadDiagnostic::SchemaWarning { field, .. } => Some(field.as_str()),
        _ => None,
    }
}

fn warning_mentions(load: &SourceLoad, text: &str) -> bool {
    load.diagnostics.iter().any(|d| match d {
        LoadDiagnostic::SchemaWarning { message, .. } => message.contains(text),
        _ => false,
    })
}

fn extra_value(cmd: &argot_cmd::model::Command, key: &str) -> serde_json::Value {
    let text = cmd.extra.iter().find(|(k, _)| k == key).map(|(_, v)| v.clone()).unwrap();
    serde_json::from_str(&text).unwrap()
}

#[test]
fn split_frontmatter_basic() {
    let raw = "---\nname: x\n---\nbody here\n";
    let (fm, body) = split_frontmatter(raw).unwrap();
    assert_eq!(fm, "name: x\n");
    assert_eq!(body, "body here\n");
}

#[test]
fn split_frontmatter_missing_close_returns_none() {
    let raw = "---\nname: x\nbody here\n";
    assert!(split_frontmatter(raw).is_none());
}

#[test]
fn split_frontmatter_no_leading_marker_returns_none() {
    assert!(split_frontmatter("nothing here").is_none());
}

#[test]
fn unquote_handles_quotes() {
    assert_eq!(unquote("\"hello\""), "hello");
    assert_eq!(unquote("'hi'"), "hi");
    assert_eq!(unquote("plain"), "plain");
}

#[test]
fn scalar_to_json_typed() {
    let v = |s: &str| -> serde_json::Value { serde_json::from_str(&scalar_to_json(s)).unwrap() };
    assert_eq!(v("true"), serde_json::Value::Bool(true));
    assert_eq!(v("42"), serde_json::Value::Number(42.into()));
    assert_eq!(v("hi"), serde_json::Value::String("hi".into()));
    assert_eq!(v("\"hi\""), serde_json::Value::String("hi".into()));
}

#[test]
fn loads_basic_command_from_dir() {
    let load = load_one_file(
        "---\nname: deploy\nsummary: Deploy the app\nmutating: true\n---\nLong description here.\n",
        Layer::Project,
    );
    assert_eq!(load.commands.len(), 1, "{:?}", load.diagnostics);
    let lc = &load.commands[0];
    assert_eq!(lc.command.canonical, "deploy");
    assert_eq!(lc.command.summary, "Deploy the app");
    assert!(lc.command.mutating);
    assert!(lc.command.description.contains("Long description"));
    assert!(matches!(lc.origin.layer, Layer::Project));
}

#[test]
fn loads_lists_and_extras() {
    let load = load_one_file(
        r#"---
name: x
aliases:
  - a
  - b
spellings:
  - X
semantic_aliases:
  - "do the thing"
best_practices:
  - "always dry-run"
anti_patterns:
  - "deploy on Friday"
extra:
  category: "infra"
  count: 7
  flag: true
---
"#,
        Layer::Project,
    );
    assert_eq!(load.commands.len(), 1, "{:?}", load.diagnostics);
    let cmd = &load.commands[0].command;
    assert_eq!(cmd.aliases, vec!["a", "b"]);
    assert_eq!(cmd.spellings, vec!["X"]);
    assert_eq!(cmd.semantic_aliases, vec!["do the thing"]);
    assert_eq!(cmd.best_practices, vec!["always dry-run"]);
    assert_eq!(cmd.anti_patterns, vec!["deploy on Friday"]);
    assert_eq!(extra_value(cmd, "category"), serde_json::Value::String("infra".into()));
    assert_eq!(extra_value(cmd, "count"), serde_json::Value::Number(7.into()));
    assert_eq!(extra_value(cmd, "flag"), serde_json::Value::Bool(true));
}

#[test]
fn priority_and_overrides_are_attached() {
    let load =
        load_one_file("---\nname: deploy\npriority: 99\noverrides: deploy\n---\n", Layer::Local);
    let lc = &load.commands[0];
    assert_eq!(lc.priority, 99);
    assert_eq!(lc.overrides.as_deref(), Some("deploy"));
}

#[test]
fn explicit_layer_field_overrides_default() {
    let load = load_one_file("---\nname: x\nlayer: local\n---\n", Layer::Project);
    assert!(matches!(load.commands[0].origin.layer, Layer::Local));
}

#[test]
fn unknown_layer_emits_warning_and_falls_back() {
    let load = load_one_file("---\nname: x\nlayer: bogus\n---\n", Layer::Project);
    assert!(matches!(load.commands[0].origin.layer, Layer::Project));
    assert!(load.diagnostics.iter().any(|d| schema_field(d) == Some("layer")));
}

#[test]
fn missing_name_skips_file_with_warning() {
    let load = load_one_file("---\nsummary: nope\n---\n", Layer::Project);
    assert!(load.commands.is_empty());
    assert!(load.diagnostics.iter().any(|d| schema_field(d) == Some("name")));
}

#[test]
fn missing_directory_is_source_error_by_default() {
    let src = MarkdownDirSource::new("t", "/nonexistent/path/argot-test", Layer::Project);
    let load = src.load_listing(DirListing::Unreadable {
        not_found: true,
        error: "No such file or directory (os error 2)".to_string(),
    });
    assert!(load.commands.is_empty());
    assert!(load.diagnostics.iter().any(|d| matches!(d, LoadDiagnostic::SourceError { .. })));
}

#[test]
fn missing_directory_when_optional_is_warning() {
    let src = MarkdownDirSource::new("t", "/nonexistent/path/argot-test", Layer::Project).optional();
    let load = src.load_listing(DirListing::Unreadable {
        not_found: true,
        error: "No such file or directory (os error 2)".to_string(),
    });
    assert!(load.commands.is_empty());
    assert!(load.diagnostics.iter().all(|d| !matches!(d, LoadDiagnostic::SourceError { .. })));
    assert!(load.diagnostics.iter().any(|d| matches!(d, LoadDiagnostic::SchemaWarning { .. })));
}

#[test]
fn unknown_keys_warn_but_do_not_block() {
    let load = load_one_file("---\nname: x\nbogus_key: value\n---\n", Layer::Project);
    assert_eq!(load.commands.len(), 1);
    assert!(load.diagnostics.iter().any(|d| schema_field(d) == Some("bogus_key")));
}

#[test]
fn deterministic_file_load_order() {
    let src = MarkdownDirSource::new("t", DIR, Layer::Project);
    let load = load_files(
        &src,
        vec![
            file("z.md", "---\nname: z\n---\n"),
            file("a.md", "---\nname: a\n---\n"),
            file("m.md", "---\nname: m\n---\n"),
        ],
    );
    let names: Vec<&str> = load.commands.iter().map(|c| c.command.canonical.as_str()).collect();
    assert_eq!(names, vec!["a", "m", "z"]);
}

#[test]
fn crlf_line_endings_supported() {
    let load =
        load_one_file("---\r\nname: x\r\nsummary: Win-style\r\n---\r\nbody line\r\n", Layer::Project);
    assert_eq!(load.commands.len(), 1, "{:?}", load.diagnostics);
    let cmd = &load.commands[0].command;
    assert_eq!(cmd.canonical, "x");
    assert_eq!(cmd.summary, "Win-style");
}

#[test]
fn body_with_horizontal_rule_keeps_first_split() {
    let load = load_one_file("---\nname: x\n---\nfirst para\n---\nsecond para\n", Layer::Project);
    assert_eq!(load.commands.len(), 1, "{:?}", load.diagnostics);
    let desc = &load.commands[0].command.description;
    assert!(desc.contains("first para"));
    assert!(desc.contains("---"));
    assert!(desc.contains("second para"));
}

#[test]
fn origin_path_is_set_for_disk_loaded_commands() {
    let load = load_one_file("---\nname: x\n---\n", Layer::Project);
    let path = load.commands[0].origin.path.as_deref().unwrap();
    assert!(path.ends_with("x.md"), "expected ends_with x.md, got {}", path);
}

#[test]
fn empty_directory_no_commands_no_diagnostics() {
    let src = MarkdownDirSource::new("t", DIR, Layer::Project);
    let load = load_files(&src, Vec::new());
    assert!(load.commands.is_empty());
    assert!(load.diagnostics.is_empty());
}

#[test]
fn end_to_end_markdown_shadow_via_layered_builder() {
    let lower = MarkdownDirSource::new("builtin", "/lower", Layer::Embedded);
    let lower_load = lower.load_listing(DirListing::Listed {
        entry_errors: Vec::new(),
        files: vec![MarkdownFile {
            name: "deploy.md".to_string(),
            path: "/lower/deploy.md".to_string(),
            content: Ok("---\nname: deploy\nsummary: Builtin deploy\n---\n".to_string()),
        }],
    });
    let upper = MarkdownDirSource::new("user", "/upper", Layer::User);
    let upper_load = upper.load_listing(DirListing::Listed {
        entry_errors: Vec::new(),
        files: vec![MarkdownFile {
            name: "deploy.md".to_string(),
            path: "/upper/deploy.md".to_string(),
            content: Ok("---\nname: deploy\nsummary: User deploy\n---\n".to_string()),
        }],
    });
    let (registry, diags) = merge_loads(vec![lower_load, upper_load]);
    assert_eq!(
        registry.get_command("deploy").unwrap().summary,
        "User deploy",
        "user-layer markdown command must shadow embedded one"
    );
    let shadow = diags
        .iter()
        .find_map(|d| match d {
            LoadDiagnostic::Shadowed { shadowed, winner, .. } => Some((shadowed, winner)),
            _ => None,
        })
        .expect("missing Shadowed diagnostic");
    assert!(shadow.0.path.as_deref().unwrap().ends_with("deploy.md"));
    assert!(shadow.1.path.as_deref().unwrap().ends_with("deploy.md"));
    assert!(matches!(shadow.0.layer, Layer::Embedded));
    assert!(matches!(shadow.1.layer, Layer::User));
}

fn env(xdg: Option<&str>, home: Option<&str>) -> ConfigEnv {
    ConfigEnv {
        xdg_config_home: xdg.map(|s| s.to_string()),
        appdata: None,
        home: home.map(|s| s.to_string()),
        userprofile: None,
    }
}

#[test]
fn user_config_dir_resolution_order() {
    let resolved = user_config_dir("argot-test", &env(Some("/tmp/xdg"), Some("/tmp/home"))).unwrap();
    assert_eq!(resolved, "/tmp/xdg/argot-test/commands");

    let src = MarkdownDirSource::user_config("argot-test", &env(Some("/tmp/xdg"), Some("/tmp/home")))
        .expect("XDG was set, user_config must return Some");
    let load = src.load_listing(DirListing::Unreadable {
        not_found: true,
        error: "No such file or directory (os error 2)".to_string(),
    });
    assert!(load.diagnostics.iter().all(|d| !matches!(d, LoadDiagnostic::SourceError { .. })));

    let resolved = user_config_dir("argot-test", &env(None, Some("/tmp/home"))).unwrap();
    assert_eq!(resolved, "/tmp/home/.config/argot-test/commands");

    let resolved = user_config_dir("argot-test", &env(Some(""), Some("/tmp/home"))).unwrap();
    assert!(resolved.starts_with("/tmp/home"));

    assert!(user_config_dir("argot-test", &env(None, None)).is_none());
    assert!(MarkdownDirSource::user_config("argot-test", &env(None, None)).is_none());
}

#[test]
fn find_project_dir_walks_up_from_subdir() {
    let dirs = ["/root/.argot-test/commands", "/root/sub/deep", "/root/sub", "/root"];
    let found =
        find_project_dir("argot-test", "/root/sub/deep", |p: &str| dirs.contains(&p)).unwrap();
    assert_eq!(found, "/root/.argot-test/commands");
}

#[test]
fn find_project_dir_returns_none_when_no_marker() {
    let dirs = ["/root/sub", "/root"];
    assert!(find_project_dir("nonexistent-app", "/root/sub", |p: &str| dirs.contains(&p)).is_none());
}

#[test]
fn find_project_dir_skips_non_directory_at_marker() {
    // `/root/.argot-non-dir/commands` exists as a regular file: the probe
    // says it is no directory, so the walk goes on and finds nothing.
    let dirs = ["/root/.argot-non-dir", "/root/sub", "/root"];
    assert!(find_project_dir("argot-non-dir", "/root/sub", |p: &str| dirs.contains(&p)).is_none());
}

#[test]
fn project_root_returns_none_for_missing_marker() {
    assert!(MarkdownDirSource::project_root("xyzzy-no-such-app-9f8e7d", Some("/home/dev/repo"), |_p: &str| false)
        .is_none());
    assert!(MarkdownDirSource::project_root("argot", None, |_p: &str| true).is_none());
}

#[test]
fn parses_arguments_section_into_typed_arguments() {
    let load = load_one_file(
        "---\nname: deploy\nsummary: Deploy\n---\n\
         Description prelude.\n\
         \n## Arguments\n\
         \n- `env` (required): Target environment\n\
         - `service`: Specific service\n\
         - `paths` (variadic): Files to operate on\n",
        Layer::Project,
    );
    assert_eq!(load.commands.len(), 1, "{:?}", load.diagnostics);
    let cmd = &load.commands[0].command;
    assert_eq!(cmd.arguments.len(), 3);
    assert_eq!(cmd.arguments[0].name, "env");
    assert!(cmd.arguments[0].required);
    assert_eq!(cmd.arguments[0].description, "Target environment");
    assert_eq!(cmd.arguments[1].name, "service");
    assert!(!cmd.arguments[1].required);
    assert!(cmd.arguments[2].variadic);
    assert!(cmd.description.contains("Description prelude"));
    assert!(!cmd.description.contains("## Arguments"));
}

#[test]
fn parses_flags_section_with_short_value_and_modifiers() {
    let load = load_one_file(
        "---\nname: serve\n---\n\
         ## Flags\n\
         \n- `--port, -p` <NUM> (default: 8080): Listen port\n\
         - `--host` <HOST> (env: SERVE_HOST): Bind address\n\
         - `--verbose, -v` (repeatable): Increase verbosity\n\
         - `--format` <FMT> (choices: json|yaml|text): Output format\n",
        Layer::Project,
    );
    assert_eq!(load.commands.len(), 1, "{:?}", load.diagnostics);
    let cmd = &load.commands[0].command;
    assert_eq!(cmd.flags.len(), 4);

    let port = cmd.flags.iter().find(|f| f.name == "port").unwrap();
    assert_eq!(port.short, Some('p'));
    assert!(port.takes_value);
    assert_eq!(port.default.as_deref(), Some("8080"));

    let host = cmd.flags.iter().find(|f| f.name == "host").unwrap();
    assert!(host.takes_value);
    assert_eq!(host.env.as_deref(), Some("SERVE_HOST"));

    let verbose = cmd.flags.iter().find(|f| f.name == "verbose").unwrap();
    assert_eq!(verbose.short, Some('v'));
    assert!(verbose.repeatable);

    let format = cmd.flags.iter().find(|f| f.name == "format").unwrap();
    let choices = format.choices.as_ref().expect("choices set");
    assert_eq!(*choices, vec!["json", "yaml", "text"]);
}

#[test]
fn parses_examples_section_with_and_without_titles() {
    let load = load_one_file(
        "---\nname: deploy\n---\n\
         ## Examples\n\
         \n- Basic deploy: `myapp deploy production`\n\
         - `myapp deploy --dry-run`\n",
        Layer::Project,
    );
    let cmd = &load.commands[0].command;
    assert_eq!(cmd.examples.len(), 2);
    assert_eq!(cmd.examples[0].description, "Basic deploy");
    assert_eq!(cmd.examples[0].command, "myapp deploy production");
    assert_eq!(cmd.examples[1].command, "myapp deploy --dry-run");
    assert_eq!(cmd.examples[1].description, "myapp deploy --dry-run");
}

#[test]
fn malformed_section_bullets_warn_but_dont_abort() {
    let load = load_one_file(
        "---\nname: x\n---\n\
         ## Arguments\n\
         \n- `valid`: ok\n\
         - this line has no backticks\n\
         - `bad` (unknown_modifier): still loads\n",
        Layer::Project,
    );
    let cmd = &load.commands[0].command;
    assert_eq!(cmd.arguments.len(), 2);
    let warning_count =
        load.diagnostics.iter().filter(|d| schema_field(d) == Some("Arguments")).count();
    assert!(warning_count >= 2, "got diagnostics: {:?}", load.diagnostics);
}

#[test]
fn heading_match_is_case_insensitive() {
    let load = load_one_file(
        "---\nname: x\n---\n\
         ## arguments\n- `env` (required): the env\n\
         ## FLAGS\n- `--verbose, -v`: noisy\n\
         ## Examples\n- `myapp x`\n",
        Layer::Project,
    );
    let cmd = &load.commands[0].command;
    assert_eq!(cmd.arguments.len(), 1, "lowercase ## arguments should parse");
    assert_eq!(cmd.flags.len(), 1, "uppercase ## FLAGS should parse");
    assert_eq!(cmd.examples.len(), 1);
}

#[test]
fn duplicate_flag_names_abort_file_with_source_error() {
    let load = load_one_file(
        "---\nname: x\n---\n\
         ## Flags\n- `--port, -p` <NUM>: First\n- `--port`: Second\n",
        Layer::Project,
    );
    assert!(load.commands.is_empty(), "duplicate flag names should drop the whole file");
    assert!(
        load.diagnostics.iter().any(|d| matches!(
            d,
            LoadDiagnostic::SourceError { message, .. } if message.contains("duplicate flag")
        )),
        "expected SourceError mentioning 'duplicate flag', got {:?}",
        load.diagnostics
    );
}

#[test]
fn unterminated_flag_value_keeps_takes_value_and_warns() {
    let load = load_one_file(
        "---\nname: x\n---\n\
         ## Flags\n- `--port, -p` <NUM (default: 8080): Listen port\n",
        Layer::Project,
    );
    let cmd = &load.commands[0].command;
    let port = cmd.flags.iter().find(|f| f.name == "port").unwrap();
    assert!(port.takes_value, "takes_value should remain true on unterminated <VALUE>");
    assert_eq!(
        port.default.as_deref(),
        Some("8080"),
        "modifiers after the malformed <VALUE> should still be parsed"
    );
    assert!(warning_mentions(&load, "unterminated `<VALUE>`"));
}

#[test]
fn unterminated_modifier_paren_warns_with_content() {
    let load = load_one_file(
        "---\nname: x\n---\n\
         ## Arguments\n- `env` (required: prod environment\n",
        Layer::Project,
    );
    let cmd = &load.commands[0].command;
    assert_eq!(cmd.arguments.len(), 1);
    assert!(warning_mentions(&load, "unterminated `(`"));
}

#[test]
fn multi_char_short_flag_warns_and_drops_short() {
    let load = load_one_file("---\nname: x\n---\n## Flags\n- `--verbose, -vv`: noisy\n", Layer::Project);
    let cmd = &load.commands[0].command;
    let verbose = cmd.flags.iter().find(|f| f.name == "verbose").unwrap();
    assert!(verbose.short.is_none(), "multi-char short alias must not be applied");
    assert!(warning_mentions(&load, "must be a single character"));
}

#[test]
fn empty_choices_modifier_warns() {
    let load = load_one_file(
        "---\nname: x\n---\n\
         ## Flags\n- `--format` <FMT> (choices: |||): Output format\n",
        Layer::Project,
    );
    let cmd = &load.commands[0].command;
    let format = cmd.flags.iter().find(|f| f.name == "format").unwrap();
    assert!(format.choices.is_none() || format.choices.as_ref().unwrap().is_empty());
    assert!(warning_mentions(&load, "empty `choices:`"));
}

#[test]
fn example_title_with_internal_colons_splits_at_command_boundary() {
    let load = load_one_file(
        "---\nname: x\n---\n\
         ## Examples\n- See https://example.com:8080: `myapp run`\n",
        Layer::Project,
    );
    let cmd = &load.commands[0].command;
    assert_eq!(cmd.examples.len(), 1, "{:?}", load.diagnostics);
    assert_eq!(cmd.examples[0].command, "myapp run");
    assert_eq!(cmd.examples[0].description, "See https://example.com:8080");
}

#[test]
fn unknown_h2_routes_content_into_description() {
    let load = load_one_file(
        "---\nname: x\n---\n\
         prelude line\n\
         \n## Examples\n- `cmd one`\n\
         \n## Notes\n- See also: foo\nFree-form notes line.\n",
        Layer::Project,
    );
    let cmd = &load.commands[0].command;
    assert_eq!(cmd.examples.len(), 1, "## Notes content must not become an example");
    assert!(cmd.description.contains("## Notes"));
    assert!(cmd.description.contains("See also: foo"));
    assert!(cmd.description.contains("Free-form notes line"));
}

#[test]
fn unknown_h2_heading_kept_as_prose() {
    let load = load_one_file(
        "---\nname: x\n---\n\
         prelude line\n\
         \n## Examples\n- `cmd one`\n\
         \n## Notes\nSome free-form notes that should not crash parsing.\n",
        Layer::Project,
    );
    let cmd = &load.commands[0].command;
    assert_eq!(cmd.examples.len(), 1);
    assert!(cmd.description.contains("prelude line"));
}

#[test]
fn priority_from_frontmatter_drives_merge() {
    let src = MarkdownDirSource::new("p", DIR, Layer::Project);
    let load = load_files(
        &src,
        vec![
            file("a.md", "---\nname: deploy\nsummary: low\n---\n"),
            file("b.md", "---\nname: deploy\nsummary: high\npriority: 10\n---\n"),
        ],
    );
    let (registry, _) = merge_loads(vec![load]);
    assert_eq!(registry.get_command("deploy").unwrap().summary, "high");
}

// ── Further cases ───────────────────────────────────────────────────────────

#[test]
fn missing_frontmatter_rejects_file() {
    let r = load_one("no frontmatter", "/x.md", "t", Layer::Project);
    assert_eq!(
        r.unwrap_err(),
        "missing or unterminated frontmatter (expected leading --- ... ---)"
    );
}

#[test]
fn read_error_becomes_source_error() {
    let src = MarkdownDirSource::new("t", DIR, Layer::Project);
    let load = load_files(
        &src,
        vec![MarkdownFile {
            name: "x.md".to_string(),
            path: "/work/commands/x.md".to_string(),
            content: Err("permission denied".to_string()),
        }],
    );
    assert_eq!(load.diagnostics.len(), 1);
    assert_eq!(
        load.diagnostics[0].message(),
        "source 't' error at /work/commands/x.md: read failed: permission denied"
    );
}

#[test]
fn entry_errors_come_first() {
    let src = MarkdownDirSource::new("t", DIR, Layer::Project);
    let load = src.load_listing(DirListing::Listed {
        entry_errors: vec!["stale handle".to_string()],
        files: vec![file("x.md", "---\nsummary: s\n---\n")],
    });
    assert_eq!(load.diagnostics.len(), 2);
    assert!(matches!(load.diagnostics[0], LoadDiagnostic::SourceError { .. }));
    assert_eq!(
        load.diagnostics[0].message(),
        "source 't' error at /work/commands: read_dir entry failed: stale handle"
    );
    assert_eq!(schema_field(&load.diagnostics[1]), Some("name"));
}

#[test]
fn priority_not_an_integer_warns() {
    let load = load_one_file("---\nname: x\npriority: high\n---\n", Layer::Project);
    assert_eq!(load.commands[0].priority, 0);
    assert!(load.diagnostics.iter().any(|d| schema_field(d) == Some("priority")));
    assert!(warning_mentions(&load, "not an integer: invalid digit found in string"));
}

#[test]
fn bom_and_build_error_message() {
    let r = load_one(
        "\u{feff}---\nname: x\naliases:\n  - x\n---\n",
        "/x.md",
        "t",
        Layer::Project,
    );
    assert_eq!(
        r.unwrap_err(),
        "Command::build failed for canonical 'x': alias `x` duplicates the canonical name"
    );
}

#[test]
fn scalar_to_json_escapes_strings_as_json() {
    assert_eq!(scalar_to_json("a\tb\u{1}"), "\"a\\tb\\u0001\"");
    assert_eq!(scalar_to_json("back\\slash"), "\"back\\\\slash\"");
}

#[test]
fn scalar_to_json_number_edges() {
    assert_eq!(scalar_to_json("-17"), "-17");
    assert_eq!(scalar_to_json("+5"), "5");
    assert_eq!(scalar_to_json("007"), "7");
    assert_eq!(scalar_to_json("-9223372036854775808"), "-9223372036854775808");
    assert_eq!(scalar_to_json("9223372036854775807"), "9223372036854775807");
    assert_eq!(scalar_to_json("9223372036854775808"), "\"9223372036854775808\"");
    assert_eq!(scalar_to_json("-"), "\"-\"");
    assert_eq!(scalar_to_json("1.5"), "\"1.5\"");
}

#[test]
fn priority_signs_and_range() {
    let load = load_one_file("---\nname: x\npriority: -12\n---\n", Layer::Project);
    assert_eq!(load.commands[0].priority, -12);
    let load = load_one_file("---\nname: x\npriority: +3\n---\n", Layer::Project);
    assert_eq!(load.commands[0].priority, 3);
    let load = load_one_file("---\nname: x\npriority: 2147483648\n---\n", Layer::Project);
    assert_eq!(load.commands[0].priority, 0);
    assert!(warning_mentions(&load, "not an integer: number too large to fit in target type"));
    let load = load_one_file("---\nname: x\npriority: -2147483648\n---\n", Layer::Project);
    assert_eq!(load.commands[0].priority, -2147483648);
}
