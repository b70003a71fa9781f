use argot_cmd::model::Command;
use argot_cmd::resolver::{ResolveError, Resolver};

fn cmd(name: &str) -> Command {
    Command::builder(name).build().unwrap()
}

#[test]
fn exact_name_wins_over_longer_prefix_match() {
    let cmds = vec![cmd("deploy"), cmd("dep")];
    let r = Resolver::new(&cmds).resolve("dep").unwrap();
    assert_eq!(r.canonical, "dep");
}

#[test]
fn exact_match_ignores_case_and_covers_aliases_and_spellings() {
    let cmds = vec![Command::builder("deploy").alias("ship").spelling("deply").build().unwrap()];
    let res = Resolver::new(&cmds);
    assert_eq!(res.resolve("DEPLOY").unwrap().canonical, "deploy");
    assert_eq!(res.resolve("Ship").unwrap().canonical, "deploy");
    assert_eq!(res.resolve("deply").unwrap().canonical, "deploy");
}

#[test]
fn spellings_never_match_by_prefix() {
    let cmds = vec![Command::builder("run").spelling("execute").build().unwrap()];
    assert!(matches!(Resolver::new(&cmds).resolve("exec"), Err(ResolveError::Unknown { .. })));
}

#[test]
fn unique_prefix_resolves() {
    let cmds = vec![cmd("deploy"), cmd("status")];
    assert_eq!(Resolver::new(&cmds).resolve("dep").unwrap().canonical, "deploy");
    let cmds = vec![Command::builder("deploy").alias("ship").build().unwrap(), cmd("status")];
    assert_eq!(Resolver::new(&cmds).resolve("sh").unwrap().canonical, "deploy");
}

#[test]
fn ambiguous_prefix_lists_every_candidate() {
    let cmds = vec![cmd("fetch"), cmd("format"), cmd("status")];
    match Resolver::new(&cmds).resolve("f") {
        Err(ResolveError::Ambiguous { input, candidates }) => {
            assert_eq!(input, "f");
            assert_eq!(candidates, vec!["fetch".to_string(), "format".to_string()]);
        }
        other => panic!("expected ambiguity, got {:?}", other),
    }
}

#[test]
fn at_most_three_suggestions_each_a_near_miss() {
    let cmds = vec![cmd("abc"), cmd("abd"), cmd("abe"), cmd("abf"), cmd("zzz")];
    match Resolver::new(&cmds).resolve("ab") {
        Err(ResolveError::Ambiguous { candidates, .. }) => assert_eq!(candidates.len(), 4),
        other => panic!("expected ambiguity, got {:?}", other),
    }
    match Resolver::new(&cmds).resolve("xabcx") {
        Err(ResolveError::Unknown { suggestions, .. }) => {
            assert_eq!(suggestions, vec!["abc".to_string()]);
        }
        other => panic!("expected an unknown word, got {:?}", other),
    }
    let cmds = vec![cmd("a"), cmd("b"), cmd("c"), cmd("d")];
    match Resolver::new(&cmds).resolve("abcd") {
        Err(ResolveError::Unknown { suggestions, .. }) => {
            assert_eq!(suggestions, vec!["a".to_string(), "b".to_string(), "c".to_string()]);
        }
        other => panic!("expected an unknown word, got {:?}", other),
    }
}

#[test]
fn resolve_error_messages() {
    let cmds = vec![cmd("fetch"), cmd("format")];
    let err = Resolver::new(&cmds).resolve("f").unwrap_err();
    assert_eq!(err.message(), "ambiguous command `f`: could be fetch, format");
    let err = Resolver::new(&cmds).resolve("zzz").unwrap_err();
    assert_eq!(err.message(), "unknown command: `zzz`");
}
