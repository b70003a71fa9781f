use argot_cmd::cli::{dispatch_result, hook_result, next_hook, Cli, CliError, HookStep, QueryPlan, RunPlan};
use argot_cmd::flag::Flag;
use argot_cmd::model::{Command, Example};

/// Carry out what `argv` asks of `cli` the way the entry point does, with
/// `handler` standing for what the reached command's handler returns
/// (`None`: no handler registered).
fn run(cli: &Cli, argv: &[&str], handler: Option<Result<(), String>>) -> Result<(), CliError> {
    let env: Vec<(String, String)> = Vec::new();
    match cli.plan(argv, &env) {
        RunPlan::Query(QueryPlan::Error(m)) => Err(CliError::Handler(m)),
        RunPlan::Query(_) | RunPlan::Help(_) | RunPlan::Version(_) | RunPlan::List => Ok(()),
        RunPlan::Dispatch { parsed, .. } => dispatch_result(&parsed.command.canonical, handler),
        RunPlan::Failed { error, .. } => Err(CliError::Parse(error)),
    }
}

fn make_cli_no_handler() -> Cli {
    let cmd = Command::builder("greet").summary("Say hello").build().unwrap();
    Cli::new(vec![cmd]).app_name("testapp").version("1.2.3")
}

fn plan_of<'a>(cli: &'a Cli, argv: &[&str]) -> RunPlan<'a> {
    let env: Vec<(String, String)> = Vec::new();
    cli.plan(argv, &env)
}

#[test]
fn test_run_empty_args() {
    let cli = make_cli_no_handler();
    let result = run(&cli, &[], None);
    assert!(result.is_ok(), "empty args should return Ok");
    assert!(matches!(plan_of(&cli, &[]), RunPlan::List));
}

#[test]
fn test_run_help_flag() {
    let cli = make_cli_no_handler();
    assert!(run(&cli, &["--help"], None).is_ok(), "--help should return Ok");
    assert!(matches!(plan_of(&cli, &["--help"]), RunPlan::Help(None)));
}

#[test]
fn test_run_help_flag_short() {
    let cli = make_cli_no_handler();
    assert!(run(&cli, &["-h"], None).is_ok(), "-h should return Ok");
    assert!(matches!(plan_of(&cli, &["-h"]), RunPlan::Help(None)));
}

#[test]
fn test_run_version_flag() {
    let cli = make_cli_no_handler();
    assert!(run(&cli, &["--version"], None).is_ok(), "--version should return Ok");
    match plan_of(&cli, &["--version"]) {
        RunPlan::Version(v) => assert_eq!(v, "testapp 1.2.3"),
        _ => panic!("expected the version line"),
    }
}

#[test]
fn test_run_version_flag_short() {
    let cli = make_cli_no_handler();
    assert!(run(&cli, &["-V"], None).is_ok(), "-V should return Ok");
    assert!(matches!(plan_of(&cli, &["-V"]), RunPlan::Version(ref v) if v == "testapp 1.2.3"));
}

#[test]
fn test_run_no_handler() {
    let cli = make_cli_no_handler();
    let result = run(&cli, &["greet"], None);
    assert!(
        matches!(result, Err(CliError::NoHandler(ref name)) if name == "greet"),
        "expected NoHandler(\"greet\"), got {:?}",
        result
    );
    assert_eq!(
        result.unwrap_err().message(),
        "command `greet` has no handler registered"
    );
}

#[test]
fn test_run_with_handler() {
    let cli = make_cli_no_handler();
    let mut called = false;
    let env: Vec<(String, String)> = Vec::new();
    let result = match cli.plan(&["greet"], &env) {
        RunPlan::Dispatch { parsed, warning } => {
            assert!(warning.is_none());
            assert_eq!(parsed.command.canonical, "greet");
            called = true;
            dispatch_result(&parsed.command.canonical, Some(Ok(())))
        }
        _ => panic!("greet should be dispatched"),
    };
    assert!(result.is_ok(), "handler should succeed, got {:?}", result);
    assert!(called, "handler should have been called");
}

#[test]
fn test_run_unknown_command() {
    let cli = make_cli_no_handler();
    let result = run(&cli, &["unknowncmd"], None);
    assert!(
        matches!(result, Err(CliError::Parse(_))),
        "unknown command should yield Parse error, got {:?}",
        result
    );
}

#[test]
fn test_run_handler_error_wrapped() {
    let cmd = Command::builder("fail").build().unwrap();
    let cli = Cli::new(vec![cmd]);
    let result = run(&cli, &["fail"], Some(Err("something went wrong".to_string())));
    assert!(result.is_err());
    match result {
        Err(CliError::Handler(e)) => {
            assert!(e.contains("something went wrong"));
        }
        other => panic!("expected CliError::Handler, got {:?}", other),
    }
}

#[test]
fn test_run_command_named_help_dispatches_correctly() {
    let cmd = Command::builder("help").build().unwrap();
    let cli = Cli::new(vec![cmd]);
    let mut called = false;
    match plan_of(&cli, &["help"]) {
        RunPlan::Dispatch { parsed, .. } => {
            assert_eq!(parsed.command.canonical, "help");
            called = true;
            dispatch_result(&parsed.command.canonical, Some(Ok(()))).unwrap();
        }
        _ => panic!("the word `help` should be dispatched"),
    }
    assert!(called, "handler should have been called");
}

#[test]
fn test_query_commands_outputs_json() {
    let cli = Cli::new(vec![
        Command::builder("deploy").summary("Deploy").build().unwrap(),
        Command::builder("status").summary("Status").build().unwrap(),
    ])
    .with_query_support();
    assert!(run(&cli, &["query", "commands"], None).is_ok());
    assert!(matches!(
        plan_of(&cli, &["query", "commands"]),
        RunPlan::Query(QueryPlan::Commands { stream: false, ref fields }) if fields.is_empty()
    ));
}

#[test]
fn test_query_named_command_outputs_json() {
    let cli = Cli::new(vec![Command::builder("deploy").summary("Deploy svc").build().unwrap()])
        .with_query_support();
    assert!(run(&cli, &["query", "deploy"], None).is_ok());
    assert!(matches!(
        plan_of(&cli, &["query", "deploy"]),
        RunPlan::Query(QueryPlan::One { command, stream: false, .. }) if command.canonical == "deploy"
    ));
}

#[test]
fn test_query_unknown_command_errors() {
    let cli = Cli::new(vec![Command::builder("deploy").build().unwrap()]).with_query_support();
    assert!(run(&cli, &["query", "nonexistent"], None).is_err());
    assert!(matches!(
        plan_of(&cli, &["query", "nonexistent"]),
        RunPlan::Query(QueryPlan::Error(ref m)) if m == "unknown command: `nonexistent`"
    ));
}

#[test]
fn test_query_meta_command_appears_in_registry() {
    let cli = Cli::new(vec![Command::builder("run").build().unwrap()]).with_query_support();
    assert!(cli.registry.get_command("query").is_some());
}

#[test]
fn test_query_with_json_flag() {
    let cli = Cli::new(vec![Command::builder("deploy").summary("Deploy").build().unwrap()])
        .with_query_support();
    assert!(run(&cli, &["query", "deploy", "--json"], None).is_ok());
    assert!(run(&cli, &["query", "commands", "--json"], None).is_ok());
}

#[test]
fn test_query_ambiguous_returns_structured_json() {
    let cli = Cli::new(vec![
        Command::builder("deploy").summary("Deploy").build().unwrap(),
        Command::builder("describe").summary("Describe").build().unwrap(),
    ])
    .with_query_support();
    let result = run(&cli, &["query", "dep"], None);
    assert!(
        result.is_ok(),
        "ambiguous query should return Ok(()) with JSON on stdout, got {:?}",
        result
    );
    // Two candidates sharing the typed prefix are reported as data.
    assert!(matches!(
        plan_of(&cli, &["query", "de"]),
        RunPlan::Query(QueryPlan::Ambiguous { ref input, ref candidates })
            if input == "de" && candidates.len() == 2
    ));
}

#[test]
fn test_query_examples_returns_examples() {
    let cli = Cli::new(vec![Command::builder("deploy")
        .summary("Deploy svc")
        .example(Example::new("Deploy to production", "deploy api --env prod"))
        .build()
        .unwrap()])
    .with_query_support();
    let result = run(&cli, &["query", "examples", "deploy"], None);
    assert!(result.is_ok(), "query examples for known command should return Ok(()), got {:?}", result);
    match plan_of(&cli, &["query", "examples", "deploy"]) {
        RunPlan::Query(QueryPlan::Examples(c)) => {
            assert_eq!(c.examples.len(), 1);
            assert_eq!(c.examples[0].command, "deploy api --env prod");
        }
        _ => panic!("expected the examples of deploy"),
    }
}

#[test]
fn test_query_examples_unknown_errors() {
    let cli = Cli::new(vec![Command::builder("deploy").build().unwrap()]).with_query_support();
    let result = run(&cli, &["query", "examples", "nonexistent"], None);
    assert!(result.is_err(), "query examples for unknown command should return Err, got {:?}", result);
}

#[test]
fn test_warn_missing_dry_run_enabled_dispatches_ok() {
    let cmd = Command::builder("delete").summary("Delete a resource").mutating().build().unwrap();
    let cli = Cli::new(vec![cmd]).warn_missing_dry_run(true);
    let mut called = false;
    match plan_of(&cli, &["delete"]) {
        RunPlan::Dispatch { parsed, warning } => {
            assert_eq!(
                warning.as_deref(),
                Some("warning: mutating command 'delete' has no --dry-run flag defined")
            );
            called = true;
            assert!(dispatch_result(&parsed.command.canonical, Some(Ok(()))).is_ok());
        }
        _ => panic!("delete should be dispatched"),
    }
    assert!(called, "handler should have been called");
}

#[test]
fn test_warn_missing_dry_run_with_dry_run_flag_no_warn() {
    let cmd = Command::builder("delete")
        .summary("Delete a resource")
        .mutating()
        .flag(Flag::builder("dry-run").description("Simulate").build().unwrap())
        .build()
        .unwrap();
    let cli = Cli::new(vec![cmd]).warn_missing_dry_run(true);
    let result = run(&cli, &["delete"], Some(Ok(())));
    assert!(result.is_ok(), "dispatch should succeed, got {:?}", result);
    assert!(matches!(plan_of(&cli, &["delete"]), RunPlan::Dispatch { warning: None, .. }));
}

#[test]
fn test_warn_missing_dry_run_disabled_no_effect() {
    let cmd = Command::builder("delete").summary("Delete a resource").mutating().build().unwrap();
    let cli = Cli::new(vec![cmd]);
    let result = run(&cli, &["delete"], Some(Ok(())));
    assert!(result.is_ok(), "dispatch should succeed, got {:?}", result);
    assert!(matches!(plan_of(&cli, &["delete"]), RunPlan::Dispatch { warning: None, .. }));
}

#[test]
fn test_version_without_app_name() {
    let cmd = Command::builder("greet").build().unwrap();
    let cli = Cli::new(vec![cmd]).version("2.0.0");
    assert!(run(&cli, &["--version"], None).is_ok());
    assert_eq!(cli.version_line(), "2.0.0");
}

#[test]
fn test_version_not_set() {
    let cmd = Command::builder("greet").build().unwrap();
    let cli = Cli::new(vec![cmd]);
    assert!(run(&cli, &["--version"], None).is_ok());
    assert_eq!(cli.version_line(), "(no version set)");
}

#[test]
fn test_unknown_command_with_suggestions() {
    let cmd = Command::builder("greet").build().unwrap();
    let cli = Cli::new(vec![cmd]);
    let result = run(&cli, &["gree"], None);
    assert!(result.is_err());
}

#[test]
fn test_help_for_subcommand() {
    let sub = Command::builder("rollback").summary("Roll back").build().unwrap();
    let parent = Command::builder("deploy").summary("Deploy").subcommand(sub).build().unwrap();
    let cli = Cli::new(vec![parent]);
    assert!(run(&cli, &["deploy", "rollback", "--help"], None).is_ok());
    assert!(matches!(
        plan_of(&cli, &["deploy", "rollback", "--help"]),
        RunPlan::Help(Some(c)) if c.canonical == "rollback"
    ));
}

#[test]
fn test_help_with_only_flags() {
    let cmd = Command::builder("greet").build().unwrap();
    let cli = Cli::new(vec![cmd]);
    assert!(run(&cli, &["--flag", "--help"], None).is_ok());
    assert!(matches!(plan_of(&cli, &["--flag", "--help"]), RunPlan::Help(None)));
}

#[test]
fn test_help_for_unknown_command() {
    let cmd = Command::builder("greet").build().unwrap();
    let cli = Cli::new(vec![cmd]);
    assert!(run(&cli, &["unknowncmd", "--help"], None).is_ok());
    assert!(matches!(plan_of(&cli, &["unknowncmd", "--help"]), RunPlan::Help(None)));
}

#[test]
fn test_query_with_no_arg_outputs_json() {
    let cli = Cli::new(vec![Command::builder("deploy").build().unwrap()]).with_query_support();
    assert!(run(&cli, &["query"], None).is_ok());
    assert!(matches!(
        plan_of(&cli, &["query"]),
        RunPlan::Query(QueryPlan::Commands { stream: false, .. })
    ));
}

#[test]
fn test_query_examples_via_resolver() {
    let cli = Cli::new(vec![Command::builder("deploy")
        .summary("Deploy")
        .example(Example::new("prod", "deploy prod"))
        .build()
        .unwrap()])
    .with_query_support();
    let result = run(&cli, &["query", "examples", "dep"], None);
    assert!(result.is_ok(), "query examples via prefix should succeed, got {:?}", result);
    assert!(matches!(
        plan_of(&cli, &["query", "examples", "dep"]),
        RunPlan::Query(QueryPlan::Examples(c)) if c.canonical == "deploy"
    ));
}

#[test]
fn test_query_named_command_via_resolver() {
    let cli = Cli::new(vec![Command::builder("deploy").summary("Deploy").build().unwrap()])
        .with_query_support();
    let result = run(&cli, &["query", "dep"], None);
    assert!(result.is_ok(), "query prefix-resolved name should succeed, got {:?}", result);
}

#[test]
fn test_query_examples_no_name_errors() {
    let cli = Cli::new(vec![Command::builder("deploy").build().unwrap()]).with_query_support();
    let result = run(&cli, &["query", "examples"], None);
    assert!(result.is_err(), "query examples with no name should error");
    assert!(matches!(
        plan_of(&cli, &["query", "examples"]),
        RunPlan::Query(QueryPlan::Error(ref m)) if m == "usage: query examples <command-name>"
    ));
}

#[test]
fn test_query_commands_stream_succeeds() {
    let cli = Cli::new(vec![
        Command::builder("deploy").summary("Deploy").build().unwrap(),
        Command::builder("status").summary("Status").build().unwrap(),
    ])
    .with_query_support();
    let result = run(&cli, &["query", "commands", "--stream"], None);
    assert!(result.is_ok(), "query commands --stream should return Ok, got {:?}", result);
    assert!(matches!(
        plan_of(&cli, &["query", "commands", "--stream"]),
        RunPlan::Query(QueryPlan::Commands { stream: true, .. })
    ));
}

#[test]
fn test_query_commands_stream_with_fields_succeeds() {
    let cli = Cli::new(vec![Command::builder("deploy").summary("Deploy").build().unwrap()])
        .with_query_support();
    let argv = ["query", "commands", "--stream", "--fields", "canonical,summary"];
    let result = run(&cli, &argv, None);
    assert!(result.is_ok(), "query commands --stream --fields should return Ok, got {:?}", result);
    match plan_of(&cli, &argv) {
        RunPlan::Query(QueryPlan::Commands { stream, fields }) => {
            assert!(stream);
            assert_eq!(fields, vec!["canonical".to_string(), "summary".to_string()]);
        }
        _ => panic!("expected the command list"),
    }
}

#[test]
fn test_query_named_command_stream_succeeds() {
    let cli = Cli::new(vec![Command::builder("deploy").summary("Deploy svc").build().unwrap()])
        .with_query_support();
    let result = run(&cli, &["query", "deploy", "--stream"], None);
    assert!(result.is_ok(), "query <name> --stream should return Ok, got {:?}", result);
    assert!(matches!(
        plan_of(&cli, &["query", "deploy", "--stream"]),
        RunPlan::Query(QueryPlan::One { stream: true, .. })
    ));
}

#[test]
fn test_query_named_command_via_resolver_stream_succeeds() {
    let cli = Cli::new(vec![Command::builder("deploy").summary("Deploy svc").build().unwrap()])
        .with_query_support();
    let result = run(&cli, &["query", "dep", "--stream"], None);
    assert!(result.is_ok(), "query prefix-resolved --stream should return Ok, got {:?}", result);
}

#[test]
fn test_query_stream_bare_query_succeeds() {
    let cli = Cli::new(vec![Command::builder("deploy").build().unwrap()]).with_query_support();
    let result = run(&cli, &["query", "--stream"], None);
    assert!(result.is_ok(), "query --stream (no subcommand) should return Ok, got {:?}", result);
}

#[test]
fn query_word_is_dispatched_without_query_support() {
    let cli = Cli::new(vec![Command::builder("query").build().unwrap()]);
    assert!(matches!(plan_of(&cli, &["query"]), RunPlan::Dispatch { .. }));
}

#[test]
fn failed_parse_carries_suggestions_and_help() {
    let cmd = Command::builder("greet").build().unwrap();
    let cli = Cli::new(vec![cmd]);
    match plan_of(&cli, &["gret"]) {
        RunPlan::Failed { notes, help, .. } => {
            assert!(notes[0].starts_with("error: "));
            assert!(help.is_none());
        }
        _ => panic!("expected a parse failure"),
    }
}

#[test]
fn cli_error_messages() {
    assert_eq!(
        CliError::Handler("boom".to_string()).message(),
        "handler error: boom"
    );
    assert!(dispatch_result("x", Some(Ok(()))).is_ok());
}

#[test]
fn help_word_wins_over_version_word() {
    let cli = make_cli_no_handler();
    assert!(matches!(plan_of(&cli, &["--version", "--help"]), RunPlan::Help(None)));
}

// The asynchronous entry point takes the same decisions; only awaiting the
// handler differs, which the caller does.

#[test]
fn test_run_async_empty_args() {
    let cli = make_cli_no_handler();
    let result = run(&cli, &[], None);
    assert!(result.is_ok(), "empty args should return Ok, got {:?}", result);
}

#[test]
fn test_run_async_help_flag() {
    let cli = make_cli_no_handler();
    let result = run(&cli, &["--help"], None);
    assert!(result.is_ok(), "--help should return Ok, got {:?}", result);
}

#[test]
fn test_run_async_version_flag() {
    let cli = make_cli_no_handler();
    let result = run(&cli, &["--version"], None);
    assert!(result.is_ok(), "--version should return Ok, got {:?}", result);
}

#[test]
fn test_run_async_with_handler() {
    let cmd = Command::builder("greet").summary("Say hello").build().unwrap();
    let cli = Cli::new(vec![cmd]).app_name("testapp").version("1.2.3");
    let mut called = false;
    let result = match plan_of(&cli, &["greet"]) {
        RunPlan::Dispatch { parsed, .. } => {
            called = true;
            dispatch_result(&parsed.command.canonical, Some(Ok(())))
        }
        _ => panic!("greet should be dispatched"),
    };
    assert!(result.is_ok(), "handler should succeed, got {:?}", result);
    assert!(called, "handler should have been called");
}

#[test]
fn test_run_async_unknown_command() {
    let cli = make_cli_no_handler();
    let result = run(&cli, &["unknowncmd"], None);
    assert!(
        matches!(result, Err(CliError::Parse(_))),
        "unknown command should yield Parse error, got {:?}",
        result
    );
}

#[test]
fn leading_json_flag_changes_nothing() {
    let cli = Cli::new(vec![Command::builder("deploy").build().unwrap()]).with_query_support();
    assert!(matches!(
        plan_of(&cli, &["query", "--json", "deploy"]),
        RunPlan::Query(QueryPlan::One { command, stream: false, .. }) if command.canonical == "deploy"
    ));
    assert!(matches!(
        plan_of(&cli, &["query", "--json"]),
        RunPlan::Query(QueryPlan::Commands { stream: false, .. })
    ));
}

#[test]
fn plan_checked_agrees_with_plan() {
    let cli = make_cli_no_handler();
    let env: Vec<(String, String)> = Vec::new();
    assert!(matches!(cli.plan_checked(&["greet"], &env), Some(RunPlan::Dispatch { .. })));
    assert!(matches!(cli.plan_checked(&["--help"], &env), Some(RunPlan::Help(None))));
    // A variadic argument after an optional one, with too few values, cannot
    // be bound: the checked plan says so instead of panicking.
    let cmd = Command {
        arguments: vec![
            argot_cmd::model::Argument::builder("a").build().unwrap(),
            argot_cmd::model::Argument::builder("b").build().unwrap(),
            argot_cmd::model::Argument::builder("rest").variadic().build().unwrap(),
        ],
        ..Command::builder("odd").build().unwrap()
    };
    let cli = Cli::new(vec![cmd]);
    assert!(cli.plan_checked(&["odd"], &env).is_none());
    assert!(matches!(cli.plan_checked(&["odd", "x", "y"], &env), Some(RunPlan::Dispatch { .. })));
}

#[test]
fn next_hook_calls_hooks_in_order_then_dispatches() {
    let mut done: Vec<Result<(), String>> = Vec::new();
    assert!(matches!(next_hook(3, &done), HookStep::Call(0)));
    done.push(Ok(()));
    assert!(matches!(next_hook(3, &done), HookStep::Call(1)));
    done.push(Ok(()));
    assert!(matches!(next_hook(3, &done), HookStep::Call(2)));
    done.push(Ok(()));
    assert!(matches!(next_hook(3, &done), HookStep::Dispatch));
}

#[test]
fn next_hook_without_middleware_dispatches() {
    assert!(matches!(next_hook(0, &Vec::new()), HookStep::Dispatch));
}

#[test]
fn next_hook_aborts_on_first_failure() {
    let done: Vec<Result<(), String>> = vec![Ok(()), Err("blocked".to_string())];
    match next_hook(3, &done) {
        HookStep::Abort(CliError::Handler(m)) => assert_eq!(m, "blocked"),
        other => panic!("expected abort, got {:?}", other),
    }
    let two: Vec<Result<(), String>> = vec![Err("first".to_string()), Err("second".to_string())];
    match next_hook(2, &two) {
        HookStep::Abort(e) => assert_eq!(e.message(), "handler error: first"),
        other => panic!("expected abort, got {:?}", other),
    }
}

#[test]
fn hook_result_carries_error_text() {
    assert!(hook_result(&Ok(())).is_ok());
    assert_eq!(
        hook_result(&Err(CliError::NoHandler("greet".to_string()))),
        Err("command `greet` has no handler registered".to_string())
    );
    assert_eq!(
        hook_result(&Err(CliError::Handler("boom".to_string()))),
        Err("handler error: boom".to_string())
    );
}
