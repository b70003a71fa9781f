use std::cmp::Ordering;
use argot_cmd::flag::Flag;
use argot_cmd::model::{Argument, BuildError, Command};

fn make_simple_cmd() -> Command {
    Command::builder("run")
        .alias("r")
        .spelling("RUN")
        .summary("Run something")
        .description("Runs the thing.")
        .build()
        .unwrap()
}

#[test]
fn command_test_builder_happy_path() {
    let cmd = make_simple_cmd();
    assert_eq!(cmd.canonical, "run");
    assert_eq!(cmd.aliases, vec!["r"]);
    assert_eq!(cmd.spellings, vec!["RUN"]);
}

#[test]
fn test_builder_empty_canonical() {
    assert_eq!(Command::builder("").build().unwrap_err(), BuildError::EmptyCanonical);
    assert_eq!(Command::builder("   ").build().unwrap_err(), BuildError::EmptyCanonical);
}

#[test]
fn test_partial_eq_ignores_handler() {
    // Handlers live outside the command model; two commands built alike are equal.
    let cmd1 = Command::builder("run").build().unwrap();
    let cmd2 = Command::builder("run").build().unwrap();
    assert_eq!(cmd1, cmd2);
}

#[test]
fn test_matchable_strings() {
    let cmd = Command::builder("Git").alias("g").spelling("GIT").build().unwrap();
    let matchables = cmd.matchable_strings();
    assert!(matchables.contains(&"git".to_string()));
    assert!(matchables.contains(&"g".to_string()));
    assert_eq!(matchables, vec!["git".to_string(), "g".to_string(), "git".to_string()]);
}

#[test]
fn test_duplicate_alias_rejected() {
    let err = Command::builder("cmd").alias("a").alias("a").build().unwrap_err();
    assert!(matches!(err, BuildError::DuplicateAlias(_)));
}

#[test]
fn test_alias_equals_canonical_rejected() {
    let err = Command::builder("deploy").alias("deploy").build().unwrap_err();
    assert!(matches!(err, BuildError::AliasEqualsCanonical(_)));
}

#[test]
fn test_duplicate_flag_name_rejected() {
    let flag = Flag::builder("verbose").build().unwrap();
    let err = Command::builder("cmd").flag(flag.clone()).flag(flag).build().unwrap_err();
    assert!(matches!(err, BuildError::DuplicateFlagName(_)));
}

#[test]
fn test_duplicate_short_flag_rejected() {
    let f1 = Flag::builder("verbose").short('v').build().unwrap();
    let f2 = Flag::builder("version").short('v').build().unwrap();
    let err = Command::builder("cmd").flag(f1).flag(f2).build().unwrap_err();
    assert!(matches!(err, BuildError::DuplicateShortFlag('v')));
}

#[test]
fn test_duplicate_argument_name_rejected() {
    let arg = Argument::builder("env").build().unwrap();
    let err = Command::builder("cmd").argument(arg.clone()).argument(arg).build().unwrap_err();
    assert!(matches!(err, BuildError::DuplicateArgumentName(_)));
}

#[test]
fn test_duplicate_subcommand_name_rejected() {
    let sub1 = Command::builder("add").build().unwrap();
    let sub2 = Command::builder("add").build().unwrap();
    let err = Command::builder("remote").subcommand(sub1).subcommand(sub2).build().unwrap_err();
    assert!(matches!(err, BuildError::DuplicateSubcommandName(_)));
}

#[test]
fn test_variadic_must_be_last() {
    let variadic = Argument::builder("files").variadic().build().unwrap();
    let after = Argument::builder("extra").build().unwrap();
    let err = Command::builder("cmd").argument(variadic).argument(after).build().unwrap_err();
    assert!(matches!(err, BuildError::VariadicNotLast(_)));
}

#[test]
fn build_error_messages_name_the_offender() {
    let err = Command::builder("cmd").alias("a").alias("a").build().unwrap_err();
    assert_eq!(err, BuildError::DuplicateAlias("a".to_string()));
    assert!(err.message().contains("a"));
}

#[test]
fn meta_value_is_kept_as_json_text() {
    let cmd = Command::builder("x").meta("role", "\"admin\"").build().unwrap();
    assert_eq!(cmd.extra, vec![("role".to_string(), "\"admin\"".to_string())]);
    let cmd = Command::builder("x").meta("role", "1").meta("role", "2").build().unwrap();
    assert_eq!(cmd.extra, vec![("role".to_string(), "2".to_string())]);
}

#[test]
fn commands_order_by_name_then_summary_then_aliases() {
    let a = Command::builder("alpha").summary("z").build().unwrap();
    let b = Command::builder("beta").summary("a").build().unwrap();
    assert_eq!(a.cmp(&b), Ordering::Less);
    assert_eq!(b.cmp(&a), Ordering::Greater);
    let c = Command::builder("alpha").summary("y").build().unwrap();
    assert_eq!(a.cmp(&c), Ordering::Greater);
    let d = Command::builder("alpha").summary("z").alias("x").build().unwrap();
    assert_eq!(a.cmp(&d), Ordering::Less);
    let e = Command::builder("alpha").summary("z").build().unwrap();
    assert_eq!(a.cmp(&e), Ordering::Equal);
}
