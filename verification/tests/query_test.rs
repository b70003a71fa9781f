use argot_cmd::model::Command;
use argot_cmd::query::{field_selection, Registry};

fn registry() -> Registry {
    let sub = Command::builder("push").summary("Push changes").build().unwrap();
    let remote = Command::builder("remote").summary("Manage remotes").subcommand(sub).build().unwrap();
    let list = Command::builder("list").summary("List all items in the store").build().unwrap();
    Registry::new(vec![remote, list])
}

#[test]
fn test_list_commands() {
    let r = registry();
    let cmds = r.list_commands();
    assert_eq!(cmds.len(), 2);
}

#[test]
fn test_get_command() {
    let r = registry();
    assert!(r.get_command("remote").is_some());
    assert!(r.get_command("missing").is_none());
}

#[test]
fn test_get_subcommand() {
    let r = registry();
    assert_eq!(r.get_subcommand(&["remote", "push"]).unwrap().canonical, "push");
    assert!(r.get_subcommand(&["remote", "nope"]).is_none());
    assert!(r.get_subcommand(&[]).is_none());
}

#[test]
fn test_get_examples_empty() {
    let r = registry();
    assert_eq!(r.get_examples("list").map(|e| e.len()), Some(0));
}

#[test]
fn test_search_match() {
    let r = registry();
    let results = r.search("store");
    assert_eq!(results.len(), 1);
    assert_eq!(results[0].canonical, "list");
}

#[test]
fn test_search_no_match() {
    let r = registry();
    assert!(r.search("zzz").is_empty());
}

#[test]
fn test_fuzzy_search_match() {
    let r = registry();
    let results = r.fuzzy_search("lst");
    assert!(!results.is_empty());
    assert!(results.iter().any(|(cmd, _)| cmd.canonical == "list"));
}

#[test]
fn test_fuzzy_search_no_match() {
    let r = registry();
    assert!(r.fuzzy_search("zzzzz").is_empty());
}

#[test]
fn test_fuzzy_search_sorted_by_score() {
    let exact = Command::builder("list").summary("List all items").build().unwrap();
    let weak = Command::builder("remote").summary("Manage remotes").build().unwrap();
    let r = Registry::new(vec![weak, exact]);
    let results = r.fuzzy_search("list");
    assert!(!results.is_empty());
    assert_eq!(results[0].0.canonical, "list");
    for window in results.windows(2) {
        assert!(window[0].1 >= window[1].1);
    }
}

#[test]
fn test_match_intent_single_word() {
    let r = Registry::new(vec![
        Command::builder("deploy").summary("Deploy a service").build().unwrap(),
        Command::builder("status").summary("Check service status").build().unwrap(),
    ]);
    let results = r.match_intent("deploy");
    assert!(!results.is_empty());
    assert_eq!(results[0].0.canonical, "deploy");
}

#[test]
fn test_match_intent_phrase() {
    let r = Registry::new(vec![
        Command::builder("deploy")
            .summary("Deploy a service to an environment")
            .semantic_alias("release to production")
            .semantic_alias("push to environment")
            .build()
            .unwrap(),
        Command::builder("status").summary("Check service status").build().unwrap(),
    ]);
    let results = r.match_intent("release to production");
    assert!(!results.is_empty());
    assert_eq!(results[0].0.canonical, "deploy");
}

#[test]
fn test_match_intent_no_match() {
    let r = Registry::new(vec![Command::builder("deploy").summary("Deploy a service").build().unwrap()]);
    let results = r.match_intent("zzz xyzzy foobar");
    assert!(results.is_empty());
}

#[test]
fn test_match_intent_sorted_by_score() {
    let r = Registry::new(vec![
        Command::builder("status").summary("Check service status").build().unwrap(),
        Command::builder("deploy")
            .summary("Deploy a service to an environment")
            .semantic_alias("release to production")
            .semantic_alias("push to environment")
            .build()
            .unwrap(),
    ]);
    let results = r.match_intent("deploy to production");
    assert!(!results.is_empty());
    assert_eq!(results[0].0.canonical, "deploy");
    for window in results.windows(2) {
        assert!(window[0].1 >= window[1].1);
    }
}

#[test]
fn test_iter_all_recursive_flat() {
    let r = Registry::new(vec![
        Command::builder("a").build().unwrap(),
        Command::builder("b").build().unwrap(),
    ]);
    let entries = r.iter_all_recursive();
    assert_eq!(entries.len(), 2);
    assert_eq!(entries[0].path_str(), "a");
    assert_eq!(entries[1].path_str(), "b");
}

#[test]
fn test_iter_all_recursive_nested() {
    let registry = Registry::new(vec![
        Command::builder("remote")
            .subcommand(Command::builder("add").build().unwrap())
            .subcommand(Command::builder("remove").build().unwrap())
            .build()
            .unwrap(),
        Command::builder("status").build().unwrap(),
    ]);
    let names: Vec<String> = registry.iter_all_recursive().iter().map(|e| e.path_str()).collect();
    assert_eq!(names, ["remote", "remote.add", "remote.remove", "status"]);
}

#[test]
fn test_iter_all_recursive_deep_nesting() {
    let leaf = Command::builder("blue-green").build().unwrap();
    let mid = Command::builder("strategy").subcommand(leaf).build().unwrap();
    let top = Command::builder("deploy").subcommand(mid).build().unwrap();
    let r = Registry::new(vec![top]);
    let names: Vec<String> = r.iter_all_recursive().iter().map(|e| e.path_str()).collect();
    assert_eq!(names, ["deploy", "deploy.strategy", "deploy.strategy.blue-green"]);
}

#[test]
fn test_iter_all_recursive_entry_helpers() {
    let registry = Registry::new(vec![Command::builder("remote")
        .subcommand(Command::builder("add").build().unwrap())
        .build()
        .unwrap()]);
    let entries = registry.iter_all_recursive();
    assert_eq!(entries[1].name(), "add");
    assert_eq!(entries[1].path, vec!["remote", "add"]);
    assert_eq!(entries[1].path_str(), "remote.add");
}

#[test]
fn test_iter_all_recursive_empty() {
    let r = Registry::new(vec![]);
    assert!(r.iter_all_recursive().is_empty());
}

#[test]
fn test_fuzzy_search_returns_matches() {
    let r = Registry::new(vec![
        Command::builder("deploy").build().unwrap(),
        Command::builder("delete").build().unwrap(),
        Command::builder("status").build().unwrap(),
    ]);
    let results = r.fuzzy_search("dep");
    assert!(!results.is_empty(), "should find matches for 'dep'");
    assert_eq!(results[0].0.canonical, "deploy");
}

#[test]
fn test_fuzzy_search_sorted_by_score_descending() {
    let r = Registry::new(vec![
        Command::builder("deploy").build().unwrap(),
        Command::builder("delete").build().unwrap(),
    ]);
    let results = r.fuzzy_search("deploy");
    assert!(!results.is_empty());
    for i in 1..results.len() {
        assert!(results[i - 1].1 >= results[i].1, "results should be sorted by score desc");
    }
}

#[test]
fn test_fuzzy_search_no_match_returns_empty() {
    let r = Registry::new(vec![Command::builder("run").build().unwrap()]);
    let results = r.fuzzy_search("zzzzzzz");
    if !results.is_empty() {
        assert!(results.iter().all(|(_, score)| *score > 0));
    }
}

#[test]
fn test_fuzzy_search_score_type() {
    let r = Registry::new(vec![Command::builder("deploy").build().unwrap()]);
    let results = r.fuzzy_search("deploy");
    assert!(!results.is_empty());
    let score: i64 = results[0].1;
    assert!(score > 0);
}

#[test]
fn search_ignores_case() {
    let r = registry();
    let results = r.search("STORE");
    assert_eq!(results.len(), 1);
    assert_eq!(results[0].canonical, "list");
}

#[test]
fn get_examples_of_unknown_command_is_none() {
    let r = registry();
    assert!(r.get_examples("missing").is_none());
}

#[test]
fn intent_ties_keep_registration_order() {
    let r = Registry::new(vec![
        Command::builder("beta").summary("sync files").build().unwrap(),
        Command::builder("alpha").summary("sync data").build().unwrap(),
    ]);
    let results = r.match_intent("sync");
    assert_eq!(results.len(), 2);
    assert_eq!(results[0].0.canonical, "beta");
    assert_eq!(results[1].0.canonical, "alpha");
    assert_eq!(results[0].1, results[1].1);
}

#[test]
fn field_selection_keeps_requested_present_keys_once() {
    let strs = |v: &[&str]| v.iter().map(|s| s.to_string()).collect::<Vec<String>>();
    let present = strs(&["canonical", "summary", "subcommands"]);
    assert_eq!(field_selection(&Vec::new(), &present), None);
    assert_eq!(
        field_selection(&strs(&["summary", "nonexistent_key", "canonical", "summary"]), &present),
        Some(strs(&["summary", "canonical"]))
    );
}
