use argot_cmd::model::Command;
use argot_cmd::source::{
    merge_loads, EmbeddedSource, Layer, LoadDiagnostic, LoadedCommand, SourceLoad, SourceOrigin,
};

fn make_cmd(canonical: &str, summary: &str) -> Command {
    Command::builder(canonical).summary(summary).build().unwrap()
}

fn loaded(canonical: &str, summary: &str, layer: Layer, source: &str) -> LoadedCommand {
    LoadedCommand::new(
        make_cmd(canonical, summary),
        SourceOrigin { source: source.to_string(), layer, path: None },
    )
}

fn stub(commands: Vec<LoadedCommand>) -> SourceLoad {
    SourceLoad { commands, diagnostics: Vec::new() }
}

#[test]
fn higher_layer_wins() {
    let embedded = stub(vec![loaded("deploy", "embedded ver", Layer::Embedded, "embedded")]);
    let project = stub(vec![loaded("deploy", "project ver", Layer::Project, "project")]);
    let (registry, diags) = merge_loads(vec![embedded, project]);
    assert_eq!(registry.get_command("deploy").unwrap().summary, "project ver");
    assert_eq!(diags.len(), 1);
    assert!(matches!(&diags[0], LoadDiagnostic::Shadowed { canonical, .. } if canonical == "deploy"));
}

#[test]
fn priority_breaks_within_layer() {
    let hi = loaded("x", "hi", Layer::Project, "b").with_priority(10);
    let lo = loaded("x", "lo", Layer::Project, "a").with_priority(1);
    let (registry, _diags) = merge_loads(vec![stub(vec![hi, lo])]);
    assert_eq!(registry.get_command("x").unwrap().summary, "hi");
}

#[test]
fn layer_rank_dominates_insertion_order() {
    let local_first = stub(vec![loaded("x", "local", Layer::Local, "local")]);
    let embedded_second = stub(vec![loaded("x", "embedded", Layer::Embedded, "embedded")]);
    let (registry, _) = merge_loads(vec![local_first, embedded_second]);
    assert_eq!(registry.get_command("x").unwrap().summary, "local");
}

#[test]
fn shadowed_diagnostic_carries_correct_winner_and_loser() {
    let embedded = stub(vec![loaded("d", "lo", Layer::Embedded, "e-src")]);
    let project = stub(vec![loaded("d", "hi", Layer::Project, "p-src")]);
    let (_, diags) = merge_loads(vec![embedded, project]);
    let LoadDiagnostic::Shadowed { shadowed, winner, .. } = &diags[0] else {
        panic!("expected Shadowed, got {:?}", diags);
    };
    assert!(matches!(shadowed.layer, Layer::Embedded));
    assert!(matches!(winner.layer, Layer::Project));
    assert_eq!(shadowed.source, "e-src");
    assert_eq!(winner.source, "p-src");
}

#[test]
fn add_boxed_accepts_dyn_command_source() {
    let cmds = vec![Command::builder("ping").build().unwrap()];
    let (registry, _) = merge_loads(vec![EmbeddedSource::new("b", cmds).load()]);
    assert!(registry.get_command("ping").is_some());
}

#[test]
fn empty_builder_yields_empty_registry() {
    let (registry, diags) = merge_loads(Vec::new());
    assert!(registry.list_commands().is_empty());
    assert!(diags.is_empty());
}

#[test]
fn override_self_alone_emits_target_missing() {
    let lc = loaded("deploy", "alone", Layer::Project, "p").overriding("deploy");
    let (_, diags) = merge_loads(vec![stub(vec![lc])]);
    assert!(
        diags.iter().any(
            |d| matches!(d, LoadDiagnostic::OverrideTargetMissing { target, .. } if target == "deploy")
        ),
        "expected OverrideTargetMissing for self-override-alone, got {:?}",
        diags
    );
}

#[test]
fn override_target_must_be_strictly_lower_layer() {
    let same_layer_target = loaded("foo", "same", Layer::Project, "p1");
    let declarer = loaded("bar", "wins", Layer::Project, "p2").overriding("foo");
    let (_, diags) = merge_loads(vec![stub(vec![same_layer_target, declarer])]);
    assert!(
        diags.iter().any(
            |d| matches!(d, LoadDiagnostic::OverrideTargetMissing { target, .. } if target == "foo")
        ),
        "expected OverrideTargetMissing because target was at same layer, got {:?}",
        diags
    );
}

#[test]
fn source_diagnostics_propagate_to_build() {
    let load = SourceLoad {
        commands: vec![],
        diagnostics: vec![LoadDiagnostic::SchemaWarning {
            origin: SourceOrigin {
                source: "warning-source".to_string(),
                layer: Layer::Project,
                path: None,
            },
            field: "test".to_string(),
            message: "synthetic warning".to_string(),
        }],
    };
    let (_, diags) = merge_loads(vec![load]);
    assert!(diags
        .iter()
        .any(|d| matches!(d, LoadDiagnostic::SchemaWarning { field, .. } if field == "test")));
}

#[test]
fn is_error_distinguishes_fatal_diagnostics() {
    let fatal = LoadDiagnostic::SourceError {
        source: "s".to_string(),
        path: None,
        message: "boom".to_string(),
    };
    assert!(fatal.is_error());

    let warn = LoadDiagnostic::SchemaWarning {
        origin: SourceOrigin { source: "s".to_string(), layer: Layer::Embedded, path: None },
        field: "f".to_string(),
        message: "m".to_string(),
    };
    assert!(!warn.is_error());
}

#[test]
fn display_includes_layer_label() {
    let d = LoadDiagnostic::Shadowed {
        canonical: "x".to_string(),
        shadowed: SourceOrigin { source: "a".to_string(), layer: Layer::Embedded, path: None },
        winner: SourceOrigin { source: "b".to_string(), layer: Layer::Local, path: None },
    };
    let s = d.message();
    assert!(s.contains("[embedded]"), "{}", s);
    assert!(s.contains("[local]"), "{}", s);
}

#[test]
fn insertion_order_breaks_ties() {
    let first = stub(vec![loaded("x", "first", Layer::Project, "first")]);
    let second = stub(vec![loaded("x", "second", Layer::Project, "second")]);
    let (registry, _) = merge_loads(vec![first, second]);
    assert_eq!(registry.get_command("x").unwrap().summary, "second");
}

#[test]
fn no_collision_no_diagnostics() {
    let src = stub(vec![
        loaded("a", "alpha", Layer::Embedded, "s"),
        loaded("b", "beta", Layer::Embedded, "s"),
    ]);
    let (registry, diags) = merge_loads(vec![src]);
    assert_eq!(registry.list_commands().len(), 2);
    assert!(diags.is_empty(), "no shadows means no diagnostics");
}

#[test]
fn override_target_missing_diagnostic() {
    let lc = loaded("deploy", "wins", Layer::Project, "project").overriding("nonexistent-target");
    let (_registry, diags) = merge_loads(vec![stub(vec![lc])]);
    assert!(
        diags.iter().any(|d| matches!(d, LoadDiagnostic::OverrideTargetMissing { target, .. } if target == "nonexistent-target")),
        "expected OverrideTargetMissing, got {:?}",
        diags
    );
}

#[test]
fn override_target_satisfied_when_lower_exists() {
    let lower = loaded("deploy", "lower", Layer::Embedded, "builtin");
    let upper = loaded("deploy", "upper", Layer::Project, "project").overriding("deploy");
    let (registry, diags) = merge_loads(vec![stub(vec![lower, upper])]);
    assert_eq!(registry.get_command("deploy").unwrap().summary, "upper");
    assert!(
        !diags.iter().any(|d| matches!(d, LoadDiagnostic::OverrideTargetMissing { .. })),
        "should not warn when override is satisfied: {:?}",
        diags
    );
}

#[test]
fn deterministic_command_ordering() {
    let src = stub(vec![
        loaded("c", "", Layer::Embedded, "s"),
        loaded("a", "", Layer::Embedded, "s"),
        loaded("b", "", Layer::Embedded, "s"),
    ]);
    let (registry, _) = merge_loads(vec![src]);
    let names: Vec<&str> = registry.list_commands().iter().map(|c| c.canonical.as_str()).collect();
    assert_eq!(names, vec!["a", "b", "c"]);
}

#[test]
fn layer_rank_ordering() {
    assert!(Layer::Embedded.rank() < Layer::User.rank());
    assert!(Layer::User.rank() < Layer::Project.rank());
    assert!(Layer::Project.rank() < Layer::Local.rank());
    assert_eq!(Layer::Custom(50).rank(), 50);
}

#[test]
fn diagnostic_display() {
    let d = LoadDiagnostic::Shadowed {
        canonical: "deploy".to_string(),
        shadowed: SourceOrigin {
            source: "embedded".to_string(),
            layer: Layer::Embedded,
            path: None,
        },
        winner: SourceOrigin {
            source: "project".to_string(),
            layer: Layer::Project,
            path: Some("/tmp/deploy.md".to_string()),
        },
    };
    let s = d.message();
    assert!(s.contains("deploy"));
    assert!(s.contains("embedded"));
    assert!(s.contains("/tmp/deploy.md"));
}

#[test]
fn layer_label_disambiguates_custom() {
    assert_eq!(Layer::Embedded.label(), "embedded");
    assert_eq!(Layer::Custom(7).label(), "custom(7)");
}

#[test]
fn embedded_source_emits_all_commands() {
    let cmds = vec![Command::builder("a").build().unwrap(), Command::builder("b").build().unwrap()];
    let load = EmbeddedSource::new("test", cmds).load();
    assert_eq!(load.commands.len(), 2);
    assert!(load.diagnostics.is_empty());
    assert_eq!(load.commands[0].origin.source, "test");
    assert!(matches!(load.commands[0].origin.layer, Layer::Embedded));
}

#[test]
fn with_layer_changes_origin() {
    let cmds = vec![Command::builder("x").build().unwrap()];
    let load = EmbeddedSource::new("t", cmds).with_layer(Layer::Local).load();
    assert!(matches!(load.commands[0].origin.layer, Layer::Local));
}

#[test]
fn with_priority_propagates() {
    let cmds = vec![Command::builder("x").build().unwrap()];
    let load = EmbeddedSource::new("t", cmds).with_priority(42).load();
    assert_eq!(load.commands[0].priority, 42);
}

#[test]
fn shadow_message_is_exact() {
    let embedded = stub(vec![loaded("deploy", "a", Layer::Embedded, "builtin")]);
    let user = stub(vec![loaded("deploy", "b", Layer::User, "user")]);
    let (_, diags) = merge_loads(vec![embedded, user]);
    assert_eq!(
        diags[0].message(),
        "command 'deploy' from builtin[embedded]:<in-memory> shadowed by user[user]:<in-memory>"
    );
}
