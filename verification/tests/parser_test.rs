use argot_cmd::flag::Flag;
use argot_cmd::model::{Argument, BuildError, Command, Example};
use argot_cmd::parser::{ParseError, Parser};
use argot_cmd::resolver::ResolveError;

fn get<'a>(pairs: &'a [(String, String)], key: &str) -> Option<&'a str> {
    pairs.iter().find(|(k, _)| k == key).map(|(_, v)| v.as_str())
}

fn build_commands() -> Vec<Command> {
    let remote_add = Command::builder("add")
        .summary("Add a remote")
        .argument(
            Argument::builder("name")
                .description("remote name")
                .required()
                .build()
                .unwrap(),
        )
        .argument(
            Argument::builder("url")
                .description("remote url")
                .required()
                .build()
                .unwrap(),
        )
        .build()
        .unwrap();

    let remote_remove = Command::builder("remove")
        .alias("rm")
        .summary("Remove a remote")
        .argument(
            Argument::builder("name")
                .description("remote name")
                .required()
                .build()
                .unwrap(),
        )
        .build()
        .unwrap();

    let remote = Command::builder("remote")
        .summary("Manage remotes")
        .subcommand(remote_add)
        .subcommand(remote_remove)
        .build()
        .unwrap();

    let list = Command::builder("list")
        .alias("ls")
        .summary("List items")
        .argument(
            Argument::builder("filter")
                .description("optional filter")
                .build()
                .unwrap(),
        )
        .flag(
            Flag::builder("verbose")
                .short('v')
                .description("verbose output")
                .build()
                .unwrap(),
        )
        .flag(
            Flag::builder("output")
                .short('o')
                .description("output format")
                .takes_value()
                .default_value("text")
                .build()
                .unwrap(),
        )
        .example(Example::new("list all", "myapp list"))
        .build()
        .unwrap();

    let deploy = Command::builder("deploy")
        .summary("Deploy")
        .flag(
            Flag::builder("env")
                .description("target environment")
                .takes_value()
                .required()
                .build()
                .unwrap(),
        )
        .build()
        .unwrap();

    vec![list, remote, deploy]
}

struct TestCase {
    name: &'static str,
    argv: &'static [&'static str],
    expect_err: bool,
    expected_canonical: Option<&'static str>,
    expected_args: Vec<(&'static str, &'static str)>,
    expected_flags: Vec<(&'static str, &'static str)>,
}

#[test]
fn test_parse() {
    let commands = build_commands();
    let parser = Parser::new(&commands);

    let cases = vec![
        TestCase {
            name: "flat command no args",
            argv: &["list"],
            expect_err: false,
            expected_canonical: Some("list"),
            expected_args: vec![],
            expected_flags: vec![("output", "text")],
        },
        TestCase {
            name: "flat command with positional",
            argv: &["list", "foo"],
            expect_err: false,
            expected_canonical: Some("list"),
            expected_args: vec![("filter", "foo")],
            expected_flags: vec![("output", "text")],
        },
        TestCase {
            name: "alias resolved",
            argv: &["ls"],
            expect_err: false,
            expected_canonical: Some("list"),
            expected_args: vec![],
            expected_flags: vec![("output", "text")],
        },
        TestCase {
            name: "boolean flag short",
            argv: &["list", "-v"],
            expect_err: false,
            expected_canonical: Some("list"),
            expected_args: vec![],
            expected_flags: vec![("verbose", "true"), ("output", "text")],
        },
        TestCase {
            name: "long flag equals",
            argv: &["list", "--output=json"],
            expect_err: false,
            expected_canonical: Some("list"),
            expected_args: vec![],
            expected_flags: vec![("output", "json")],
        },
        TestCase {
            name: "long flag space value",
            argv: &["list", "--output", "json"],
            expect_err: false,
            expected_canonical: Some("list"),
            expected_args: vec![],
            expected_flags: vec![("output", "json")],
        },
        TestCase {
            name: "short flag space value",
            argv: &["list", "-o", "json"],
            expect_err: false,
            expected_canonical: Some("list"),
            expected_args: vec![],
            expected_flags: vec![("output", "json")],
        },
        TestCase {
            name: "two-level subcommand",
            argv: &["remote", "add", "origin", "https://example.com"],
            expect_err: false,
            expected_canonical: Some("add"),
            expected_args: vec![("name", "origin"), ("url", "https://example.com")],
            expected_flags: vec![],
        },
        TestCase {
            name: "subcommand alias",
            argv: &["remote", "rm", "origin"],
            expect_err: false,
            expected_canonical: Some("remove"),
            expected_args: vec![("name", "origin")],
            expected_flags: vec![],
        },
        TestCase {
            name: "no command",
            argv: &[],
            expect_err: true,
            expected_canonical: None,
            expected_args: vec![],
            expected_flags: vec![],
        },
        TestCase {
            name: "unknown command",
            argv: &["unknown"],
            expect_err: true,
            expected_canonical: None,
            expected_args: vec![],
            expected_flags: vec![],
        },
        TestCase {
            name: "unknown flag",
            argv: &["list", "--nope"],
            expect_err: true,
            expected_canonical: None,
            expected_args: vec![],
            expected_flags: vec![],
        },
        TestCase {
            name: "missing required flag",
            argv: &["deploy"],
            expect_err: true,
            expected_canonical: None,
            expected_args: vec![],
            expected_flags: vec![],
        },
        TestCase {
            name: "unexpected positional",
            argv: &["list", "one", "two"],
            expect_err: true,
            expected_canonical: None,
            expected_args: vec![],
            expected_flags: vec![],
        },
    ];

    for tc in &cases {
        let result = parser.parse(tc.argv);
        if tc.expect_err {
            assert!(result.is_err(), "case '{}': expected error", tc.name);
        } else {
            let parsed = result
                .unwrap_or_else(|e| panic!("case '{}': unexpected error: {:?}", tc.name, e));
            assert_eq!(
                parsed.command.canonical,
                tc.expected_canonical.unwrap(),
                "case '{}'",
                tc.name
            );
            for (k, v) in &tc.expected_args {
                assert_eq!(
                    get(&parsed.args, k),
                    Some(*v),
                    "case '{}': arg {}",
                    tc.name,
                    k
                );
            }
            for (k, v) in &tc.expected_flags {
                assert_eq!(
                    get(&parsed.flags, k),
                    Some(*v),
                    "case '{}': flag {}",
                    tc.name,
                    k
                );
            }
        }
    }
}

#[test]
fn test_double_dash_separator() {
    let cmds = vec![Command::builder("run")
        .argument(
            Argument::builder("script")
                .description("script to run")
                .required()
                .build()
                .unwrap(),
        )
        .build()
        .unwrap()];
    let parser = Parser::new(&cmds);
    // "--" separator should make "--not-a-flag" treated as a positional word.
    // But our command only has one argument, so the second word would be unexpected.
    // Let's just verify `--` itself doesn't cause a parse error on the separator.
    let result = parser.parse(&["run", "--", "myscript"]);
    assert!(result.is_ok());
    assert_eq!(get(&result.unwrap().args, "script").unwrap(), "myscript");
}

#[test]
fn test_missing_required_argument() {
    let cmds = vec![Command::builder("get")
        .argument(
            Argument::builder("id")
                .description("item id")
                .required()
                .build()
                .unwrap(),
        )
        .build()
        .unwrap()];
    let parser = Parser::new(&cmds);
    assert!(matches!(
        parser.parse(&["get"]),
        Err(ParseError::MissingArgument(ref s)) if s == "id"
    ));
}

#[test]
fn test_flag_missing_value() {
    let cmds = vec![Command::builder("build")
        .flag(Flag::builder("target").takes_value().build().unwrap())
        .build()
        .unwrap()];
    let parser = Parser::new(&cmds);
    assert!(matches!(
        parser.parse(&["build", "--target"]),
        Err(ParseError::FlagMissingValue { .. })
    ));
}

#[test]
fn test_ambiguous_subcommand() {
    let fetch = Command::builder("fetch").build().unwrap();
    let force_push = Command::builder("force-push").build().unwrap();
    let cmds = vec![Command::builder("git")
        .subcommand(fetch)
        .subcommand(force_push)
        .build()
        .unwrap()];
    let parser = Parser::new(&cmds);
    let result = parser.parse(&["git", "f"]);
    assert!(
        matches!(
            result,
            Err(ParseError::Resolve(ResolveError::Ambiguous { .. }))
        ),
        "expected Resolve(Ambiguous), got {:?}",
        result
    );
}

#[test]
fn test_unknown_subcommand_on_no_positionals() {
    let cmds = vec![Command::builder("remote")
        .subcommand(Command::builder("add").build().unwrap())
        .build()
        .unwrap()];
    let parser = Parser::new(&cmds);
    assert!(matches!(
        parser.parse(&["remote", "xyz"]),
        Err(ParseError::UnknownSubcommand { .. })
    ));
}

#[test]
fn test_unknown_word_treated_as_positional_when_parent_has_args() {
    let cmds = vec![Command::builder("deploy")
        .subcommand(Command::builder("production").build().unwrap())
        .argument(
            Argument::builder("target")
                .description("deployment target")
                .required()
                .build()
                .unwrap(),
        )
        .build()
        .unwrap()];
    let parser = Parser::new(&cmds);
    let result = parser.parse(&["deploy", "staging"]);
    assert!(result.is_ok(), "expected Ok, got {:?}", result);
    let parsed = result.unwrap();
    assert_eq!(parsed.command.canonical, "deploy");
    assert_eq!(
        get(&parsed.args, "target"),
        Some("staging")
    );
}

// -----------------------------------------------------------------------
// Enhancement 1: Adjacent short flags (-abc → -a -b -c)
// -----------------------------------------------------------------------

fn build_multi_flag_command() -> Vec<Command> {
    vec![Command::builder("cmd")
        .flag(Flag::builder("verbose").short('v').build().unwrap())
        .flag(Flag::builder("no-wait").short('n').build().unwrap())
        .flag(
            Flag::builder("output")
                .short('o')
                .takes_value()
                .default_value("text")
                .build()
                .unwrap(),
        )
        .build()
        .unwrap()]
}

#[test]
fn test_adjacent_short_flags() {
    let cmds = build_multi_flag_command();
    let parser = Parser::new(&cmds);

    // -vo json: -v is boolean (→ verbose=true), -o takes a value (→ output=json)
    let result = parser.parse(&["cmd", "-vo", "json"]);
    assert!(result.is_ok(), "expected Ok, got {:?}", result);
    let parsed = result.unwrap();
    assert_eq!(
        get(&parsed.flags, "verbose"),
        Some("true")
    );
    assert_eq!(get(&parsed.flags, "output"), Some("json"));

    // -vn: both boolean flags → verbose=true, no-wait=true
    let result2 = parser.parse(&["cmd", "-vn"]);
    assert!(result2.is_ok(), "expected Ok, got {:?}", result2);
    let parsed2 = result2.unwrap();
    assert_eq!(
        get(&parsed2.flags, "verbose"),
        Some("true")
    );
    assert_eq!(
        get(&parsed2.flags, "no-wait"),
        Some("true")
    );
}

#[test]
fn test_adjacent_short_flags_with_value() {
    let cmds = build_multi_flag_command();
    let parser = Parser::new(&cmds);

    // -ofile.txt: -o takes_value, so "file.txt" is the inline value
    let result = parser.parse(&["cmd", "-ofile.txt"]);
    assert!(result.is_ok(), "expected Ok, got {:?}", result);
    let parsed = result.unwrap();
    assert_eq!(
        get(&parsed.flags, "output"),
        Some("file.txt")
    );
}

// -----------------------------------------------------------------------
// Enhancement 2: --no-flag negation
// -----------------------------------------------------------------------

#[test]
fn test_flag_negation() {
    let cmds = vec![Command::builder("cmd")
        .flag(Flag::builder("verbose").short('v').build().unwrap())
        .build()
        .unwrap()];
    let parser = Parser::new(&cmds);

    let result = parser.parse(&["cmd", "--no-verbose"]);
    assert!(result.is_ok(), "expected Ok, got {:?}", result);
    let parsed = result.unwrap();
    assert_eq!(
        get(&parsed.flags, "verbose"),
        Some("false")
    );
}

#[test]
fn test_flag_negation_unknown() {
    let cmds = vec![Command::builder("cmd")
        .flag(Flag::builder("verbose").short('v').build().unwrap())
        .build()
        .unwrap()];
    let parser = Parser::new(&cmds);

    // --no-nonexistent should return UnknownFlag
    let result = parser.parse(&["cmd", "--no-nonexistent"]);
    assert!(
        matches!(result, Err(ParseError::UnknownFlag(_))),
        "expected UnknownFlag, got {:?}",
        result
    );
}

// -----------------------------------------------------------------------
// Enhancement 3: Variadic arguments
// -----------------------------------------------------------------------

#[test]
fn test_variadic_argument() {
    let cmds = vec![Command::builder("cmd")
        .argument(Argument::builder("files").variadic().build().unwrap())
        .build()
        .unwrap()];
    let parser = Parser::new(&cmds);

    let result = parser.parse(&["cmd", "a", "b", "c"]);
    assert!(result.is_ok(), "expected Ok, got {:?}", result);
    let parsed = result.unwrap();
    let raw = get(&parsed.args, "files").expect("files key missing");
    let values: Vec<String> = serde_json::from_str(raw).expect("not valid JSON array");
    assert_eq!(values, vec!["a", "b", "c"]);
}

#[test]
fn test_variadic_argument_required_empty() {
    let cmds = vec![Command::builder("cmd")
        .argument(
            Argument::builder("files")
                .required()
                .variadic()
                .build()
                .unwrap(),
        )
        .build()
        .unwrap()];
    let parser = Parser::new(&cmds);

    let result = parser.parse(&["cmd"]);
    assert!(
        matches!(result, Err(ParseError::MissingArgument(ref s)) if s == "files"),
        "expected MissingArgument(files), got {:?}",
        result
    );
}

#[test]
fn test_variadic_argument_default() {
    let cmds = vec![Command::builder("cmd")
        .argument(
            Argument::builder("files")
                .default_value("[]")
                .variadic()
                .build()
                .unwrap(),
        )
        .build()
        .unwrap()];
    let parser = Parser::new(&cmds);

    // No positionals provided → default applies
    let result = parser.parse(&["cmd"]);
    assert!(result.is_ok(), "expected Ok, got {:?}", result);
    let parsed = result.unwrap();
    assert_eq!(get(&parsed.args, "files"), Some("[]"));
}

// -----------------------------------------------------------------------
// Flag choices and repeatable
// -----------------------------------------------------------------------

#[test]
fn test_flag_choices_valid() {
    let cmds = vec![Command::builder("build")
        .flag(
            Flag::builder("format")
                .takes_value()
                .choices(&["json", "yaml", "text"])
                .build()
                .unwrap(),
        )
        .build()
        .unwrap()];
    let parser = Parser::new(&cmds);
    let parsed = parser.parse(&["build", "--format=json"]).unwrap();
    assert_eq!(get(&parsed.flags, "format").unwrap(), "json");
}

#[test]
fn test_flag_choices_invalid() {
    let cmds = vec![Command::builder("build")
        .flag(
            Flag::builder("format")
                .takes_value()
                .choices(&["json", "yaml", "text"])
                .build()
                .unwrap(),
        )
        .build()
        .unwrap()];
    let parser = Parser::new(&cmds);
    let result = parser.parse(&["build", "--format=xml"]);
    assert!(
        matches!(result, Err(ParseError::InvalidChoice { ref value, .. }) if value == "xml")
    );
}

#[test]
fn test_repeatable_boolean_flag() {
    let cmds = vec![Command::builder("run")
        .flag(
            Flag::builder("verbose")
                .short('v')
                .repeatable()
                .build()
                .unwrap(),
        )
        .build()
        .unwrap()];
    let parser = Parser::new(&cmds);
    // Three separate -v flags
    let parsed = parser.parse(&["run", "-v", "-v", "-v"]).unwrap();
    assert_eq!(get(&parsed.flags, "verbose").unwrap(), "3");
}

#[test]
fn test_repeatable_value_flag() {
    let cmds = vec![Command::builder("run")
        .flag(
            Flag::builder("tag")
                .takes_value()
                .repeatable()
                .build()
                .unwrap(),
        )
        .build()
        .unwrap()];
    let parser = Parser::new(&cmds);
    let parsed = parser.parse(&["run", "--tag=alpha", "--tag=beta"]).unwrap();
    let tags: Vec<String> = serde_json::from_str(&get(&parsed.flags, "tag").unwrap()).unwrap();
    assert_eq!(tags, vec!["alpha", "beta"]);
}

#[test]
fn test_adjacent_short_repeatable() {
    // -vvv should expand to three -v flags and count correctly
    let cmds = vec![Command::builder("run")
        .flag(
            Flag::builder("verbose")
                .short('v')
                .repeatable()
                .build()
                .unwrap(),
        )
        .build()
        .unwrap()];
    let parser = Parser::new(&cmds);
    let parsed = parser.parse(&["run", "-vvv"]).unwrap();
    assert_eq!(get(&parsed.flags, "verbose").unwrap(), "3");
}

#[test]
fn test_empty_choices_build_error() {
        let flag = Flag::builder("format")
        .takes_value()
        .choices(&[])
        .build()
        .unwrap();
    let result = Command::builder("cmd").flag(flag).build();
    assert!(matches!(result, Err(BuildError::EmptyChoices(_))));
}

#[test]
fn test_env_var_fallback_basic() {
    let var = "ARGOT_TEST_ENVFLAG_BASIC_11111";
    let cmds = vec![Command::builder("cmd")
        .flag(
            Flag::builder("token")
                .takes_value()
                .env(var)
                .build()
                .unwrap(),
        )
        .build()
        .unwrap()];
    let parser = Parser::new(&cmds);
    let mut env: Vec<(String, String)> = Vec::new();

    // Not set → absent
    assert!(!parser.parse_with_env(&["cmd"], &env).unwrap().has_flag("token"));

    // Set → present
    env = vec![(var.to_string(), "abc123".to_string())];
    assert_eq!(parser.parse_with_env(&["cmd"], &env).unwrap().flag("token").unwrap(), "abc123");

    // CLI overrides env
    assert_eq!(
        parser.parse_with_env(&["cmd", "--token=override"], &env).unwrap().flag("token").unwrap(),
        "override"
    );
    env.clear();
}

#[test]
fn test_env_var_fallback_with_default() {
    let var = "ARGOT_TEST_ENVFLAG_DEFAULT_22222";
    let cmds = vec![Command::builder("cmd")
        .flag(
            Flag::builder("mode")
                .takes_value()
                .env(var)
                .default_value("dev")
                .build()
                .unwrap(),
        )
        .build()
        .unwrap()];
    let parser = Parser::new(&cmds);
    let mut env: Vec<(String, String)> = Vec::new();

    // No CLI, no env → default
    assert_eq!(parser.parse_with_env(&["cmd"], &env).unwrap().flag("mode").unwrap(), "dev");

    // No CLI, env set → env wins over default
    env = vec![(var.to_string(), "prod".to_string())];
    assert_eq!(parser.parse_with_env(&["cmd"], &env).unwrap().flag("mode").unwrap(), "prod");
    env.clear();
}

#[test]
fn test_env_var_satisfies_required_flag() {
    let var = "ARGOT_TEST_ENVFLAG_REQUIRED_33333";
    let cmds = vec![Command::builder("cmd")
        .flag(
            Flag::builder("token")
                .takes_value()
                .required()
                .env(var)
                .build()
                .unwrap(),
        )
        .build()
        .unwrap()];
    let parser = Parser::new(&cmds);
    let mut env: Vec<(String, String)> = Vec::new();

    // Required + env set → OK
    env = vec![(var.to_string(), "secret".to_string())];
    assert_eq!(parser.parse_with_env(&["cmd"], &env).unwrap().flag("token").unwrap(), "secret");

    // Required + env absent → MissingFlag
    env.clear();
    assert!(matches!(
        parser.parse_with_env(&["cmd"], &env),
        Err(ParseError::MissingFlag(_))
    ));
}

#[test]
fn test_env_var_validates_choices() {
    let var = "ARGOT_TEST_ENVFLAG_CHOICES_44444";
    let cmds = vec![Command::builder("cmd")
        .flag(
            Flag::builder("env_name")
                .takes_value()
                .choices(&["prod", "staging"])
                .env(var)
                .build()
                .unwrap(),
        )
        .build()
        .unwrap()];
    let parser = Parser::new(&cmds);
    let mut env: Vec<(String, String)> = Vec::new();

    env = vec![(var.to_string(), "staging".to_string())];
    assert_eq!(parser.parse_with_env(&["cmd"], &env).unwrap().flag("env_name").unwrap(), "staging");

    env = vec![(var.to_string(), "local".to_string())];
    assert!(matches!(
        parser.parse_with_env(&["cmd"], &env),
        Err(ParseError::InvalidChoice { .. })
    ));

    env.clear();
}

#[test]
fn test_exclusive_flags_one_set_ok() {
    let cmd = Command::builder("export")
        .flag(Flag::builder("json").build().unwrap())
        .flag(Flag::builder("yaml").build().unwrap())
        .exclusive(&["json", "yaml"])
        .build()
        .unwrap();
    let cmds = vec![cmd];
    let parser = Parser::new(&cmds);
    let parsed = parser.parse(&["export", "--json"]).unwrap();
    assert_eq!(get(&parsed.flags, "json").unwrap(), "true");
}

#[test]
fn test_exclusive_flags_two_set_errors() {
    let cmd = Command::builder("export")
        .flag(Flag::builder("json").build().unwrap())
        .flag(Flag::builder("yaml").build().unwrap())
        .exclusive(&["json", "yaml"])
        .build()
        .unwrap();
    let cmds = vec![cmd];
    let parser = Parser::new(&cmds);
    assert!(matches!(
        parser.parse(&["export", "--json", "--yaml"]),
        Err(ParseError::MutuallyExclusive { .. })
    ));
}

#[test]
fn test_exclusive_neither_set_ok() {
    let cmd = Command::builder("export")
        .flag(Flag::builder("json").build().unwrap())
        .flag(Flag::builder("yaml").build().unwrap())
        .exclusive(&["json", "yaml"])
        .build()
        .unwrap();
    let cmds = vec![cmd];
    let parser = Parser::new(&cmds);
    assert!(parser.parse(&["export"]).is_ok());
}

#[test]
fn test_exclusive_group_unknown_flag_build_error() {
        let result = Command::builder("cmd")
        .flag(Flag::builder("json").build().unwrap())
        .exclusive(&["json", "nonexistent"])
        .build();
    assert!(matches!(
        result,
        Err(BuildError::ExclusiveGroupUnknownFlag(_))
    ));
}

#[test]
fn test_exclusive_group_too_small_build_error() {
        let result = Command::builder("cmd")
        .flag(Flag::builder("json").build().unwrap())
        .exclusive(&["json"])
        .build();
    assert!(matches!(result, Err(BuildError::ExclusiveGroupTooSmall)));
}


#[test]
fn test_parsed_command_typed_getters() {
    let cmd = Command::builder("run")
        .argument(Argument::builder("script").required().build().unwrap())
        .flag(Flag::builder("verbose").short('v').build().unwrap())
        .flag(
            Flag::builder("output")
                .takes_value()
                .default_value("text")
                .build()
                .unwrap(),
        )
        .build()
        .unwrap();
    let cmds = vec![cmd];
    let parser = Parser::new(&cmds);
    let parsed = parser.parse(&["run", "myscript", "-v"]).unwrap();

    assert_eq!(parsed.arg("script"), Some("myscript"));
    assert_eq!(parsed.arg("missing"), None);
    assert_eq!(parsed.flag("verbose"), Some("true"));
    assert_eq!(parsed.flag("output"), Some("text")); // default
    assert!(parsed.flag_bool("verbose"));
    assert!(!parsed.flag_bool("output")); // not a boolean flag
    assert_eq!(parsed.flag_count("verbose"), 1);
    assert_eq!(parsed.flag_count("missing"), 0);
    assert_eq!(parsed.flag_values("output"), vec!["text"]);
    assert!(parsed.flag_values("missing").is_empty());
}

#[test]
fn test_has_flag() {
    let cmd = Command::builder("run")
        .flag(Flag::builder("verbose").build().unwrap())
        .flag(
            Flag::builder("output")
                .takes_value()
                .default_value("text")
                .build()
                .unwrap(),
        )
        .build()
        .unwrap();
    let cmds = vec![cmd];
    let parser = Parser::new(&cmds);
    let parsed = parser.parse(&["run", "--verbose"]).unwrap();
    assert!(parsed.has_flag("verbose"));
    assert!(parsed.has_flag("output")); // present via default
    assert!(!parsed.has_flag("nonexistent"));
}


#[test]
fn test_arg_as_u32() {
    let cmd = Command::builder("resize")
        .argument(Argument::builder("width").required().build().unwrap())
        .build()
        .unwrap();
    let cmds = vec![cmd];
    let parsed = Parser::new(&cmds).parse(&["resize", "1920"]).unwrap();
    let w: u32 = parsed.arg_as("width").unwrap().unwrap();
    assert_eq!(w, 1920);
}

#[test]
fn test_arg_as_parse_error() {
    let cmd = Command::builder("cmd")
        .argument(Argument::builder("n").required().build().unwrap())
        .build()
        .unwrap();
    let cmds = vec![cmd];
    let parsed = Parser::new(&cmds).parse(&["cmd", "notanumber"]).unwrap();
    assert!(parsed.arg_as::<u32>("n").unwrap().is_err());
    assert_eq!(parsed.arg_as::<u32>("n").unwrap().unwrap_err(), "notanumber");
}

#[test]
fn test_arg_as_absent() {
    let cmd = Command::builder("cmd").build().unwrap();
    let cmds = vec![cmd];
    let parsed = Parser::new(&cmds).parse(&["cmd"]).unwrap();
    assert!(parsed.arg_as::<u32>("missing").is_none());
}

#[test]
fn test_flag_as_u16() {
    let cmd = Command::builder("serve")
        .flag(Flag::builder("port").takes_value().default_value("8080").build().unwrap())
        .build()
        .unwrap();
    let cmds = vec![cmd];
    let parsed = Parser::new(&cmds).parse(&["serve"]).unwrap();
    let port: u16 = parsed.flag_as("port").unwrap().unwrap();
    assert_eq!(port, 8080);
}

#[test]
fn test_flag_as_bool() {
    let cmd = Command::builder("run").flag(Flag::builder("verbose").build().unwrap()).build().unwrap();
    let cmds = vec![cmd];
    let parsed = Parser::new(&cmds).parse(&["run", "--verbose"]).unwrap();
    let v: bool = parsed.flag_as("verbose").unwrap().unwrap();
    assert!(v);
}

#[test]
fn test_arg_as_or_default() {
    let cmd = Command::builder("run")
        .argument(Argument::builder("count").build().unwrap())
        .build()
        .unwrap();
    let cmds = vec![cmd];
    let parsed = Parser::new(&cmds).parse(&["run"]).unwrap();
    assert_eq!(parsed.arg_as_or("count", 42u32), 42u32);
}

#[test]
fn test_flag_as_or_default() {
    let cmd = Command::builder("serve")
        .flag(Flag::builder("workers").takes_value().build().unwrap())
        .build()
        .unwrap();
    let cmds = vec![cmd];
    let parsed = Parser::new(&cmds).parse(&["serve"]).unwrap();
    assert_eq!(parsed.flag_as_or("workers", 4u32), 4u32);
}

fn env_of(pairs: &[(&str, &str)]) -> Vec<(String, String)> {
    pairs.iter().map(|(k, v)| (k.to_string(), v.to_string())).collect()
}

fn lookup_cmds() -> Vec<Command> {
    vec![Command::builder("deploy")
        .flag(Flag::builder("region").takes_value().env("DEPLOY_REGION").default_value("eu").build().unwrap())
        .build()
        .unwrap()]
}

#[test]
fn flag_lookup_command_line_wins_over_environment_and_default() {
    let cmds = lookup_cmds();
    let env = env_of(&[("DEPLOY_REGION", "us")]);
    let parsed = Parser::new(&cmds).parse_with_env(&["deploy", "--region=ap"], &env).unwrap();
    assert_eq!(parsed.flag("region"), Some("ap"));
}

#[test]
fn flag_lookup_environment_wins_over_default() {
    let cmds = lookup_cmds();
    let env = env_of(&[("DEPLOY_REGION", "us")]);
    let parsed = Parser::new(&cmds).parse_with_env(&["deploy"], &env).unwrap();
    assert_eq!(parsed.flag("region"), Some("us"));
}

#[test]
fn flag_lookup_empty_environment_value_falls_back_to_default() {
    let cmds = lookup_cmds();
    let env = env_of(&[("DEPLOY_REGION", "")]);
    let parsed = Parser::new(&cmds).parse_with_env(&["deploy"], &env).unwrap();
    assert_eq!(parsed.flag("region"), Some("eu"));
    let parsed = Parser::new(&cmds).parse(&["deploy"]).unwrap();
    assert_eq!(parsed.flag("region"), Some("eu"));
}

#[test]
fn required_flag_from_environment_satisfies_requirement() {
    let cmds = vec![Command::builder("login")
        .flag(Flag::builder("token").takes_value().required().env("TOKEN").build().unwrap())
        .build()
        .unwrap()];
    let env = env_of(&[("TOKEN", "abc")]);
    let parsed = Parser::new(&cmds).parse_with_env(&["login"], &env).unwrap();
    assert_eq!(parsed.flag("token"), Some("abc"));
    assert_eq!(
        Parser::new(&cmds).parse(&["login"]).unwrap_err(),
        ParseError::MissingFlag("token".to_string())
    );
}

#[test]
fn exclusive_group_rejects_two_given_flags() {
    let cmds = vec![Command::builder("export")
        .flag(Flag::builder("json").build().unwrap())
        .flag(Flag::builder("yaml").build().unwrap())
        .exclusive(&["json", "yaml"])
        .build()
        .unwrap()];
    match Parser::new(&cmds).parse(&["export", "--json", "--yaml"]) {
        Err(ParseError::MutuallyExclusive { flags }) => {
            assert_eq!(flags, vec!["--json".to_string(), "--yaml".to_string()]);
        }
        other => panic!("expected MutuallyExclusive, got {:?}", other),
    }
    assert!(Parser::new(&cmds).parse(&["export", "--json"]).is_ok());
}

#[test]
fn parse_checked_reports_what_parse_gives() {
    let cmds = lookup_cmds();
    let env: Vec<(String, String)> = Vec::new();
    let checked = Parser::new(&cmds).parse_checked(&["deploy"], &env).unwrap();
    assert_eq!(checked.unwrap().flag("region"), Some("eu"));
}
