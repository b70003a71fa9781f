use argot_cmd::derive::{
    camel_to_kebab, derive_command, snake_to_kebab, ArgotCommand, DeriveError, DeriveInput,
    FieldAttr, FieldInput, FieldsShape, ItemData, StructAttr,
};
use argot_cmd::model::Command;
use argot_cmd::parser::{ParseError, Parser};
use argot_cmd::query::Registry;

fn s(x: &str) -> String {
    x.to_string()
}

fn field(ident: &str, attrs: Vec<FieldAttr>) -> FieldInput {
    FieldInput { ident: s(ident), argot: Some(attrs) }
}

fn plain_field(ident: &str) -> FieldInput {
    FieldInput { ident: s(ident), argot: None }
}

fn named(ident: &str, attrs: Vec<StructAttr>, fields: Vec<FieldInput>) -> DeriveInput {
    DeriveInput { ident: s(ident), attrs, data: ItemData::Struct(FieldsShape::Named(fields)) }
}

fn unit(ident: &str, attrs: Vec<StructAttr>) -> DeriveInput {
    DeriveInput { ident: s(ident), attrs, data: ItemData::Struct(FieldsShape::Unit) }
}

fn get<'a>(pairs: &'a [(String, String)], key: &str) -> Option<&'a str> {
    pairs.iter().find(|(k, _)| k == key).map(|(_, v)| v.as_str())
}

// #[argot(summary = "Deploy the application", alias = "d", best_practice = "always dry-run first")]
// struct Deploy { env, dry_run, output }
struct Deploy;

impl ArgotCommand for Deploy {
    fn command() -> Command {
        derive_command(&named(
            "Deploy",
            vec![
                StructAttr::Summary(s("Deploy the application")),
                StructAttr::Alias(s("d")),
                StructAttr::BestPractice(s("always dry-run first")),
            ],
            vec![
                field(
                    "env",
                    vec![
                        FieldAttr::Positional,
                        FieldAttr::Required,
                        FieldAttr::Description(s("target environment")),
                    ],
                ),
                field(
                    "dry_run",
                    vec![FieldAttr::Flag, FieldAttr::Short('n'), FieldAttr::Description(s("dry run mode"))],
                ),
                field(
                    "output",
                    vec![
                        FieldAttr::Flag,
                        FieldAttr::Short('o'),
                        FieldAttr::TakesValue,
                        FieldAttr::Description(s("output format")),
                        FieldAttr::Default(s("text")),
                    ],
                ),
            ],
        ))
        .unwrap()
    }
}

#[test]
fn test_canonical_name_from_struct() {
    assert_eq!(Deploy::command().canonical, "deploy");
}

#[test]
fn test_summary_and_alias() {
    let cmd = Deploy::command();
    assert_eq!(cmd.summary, "Deploy the application");
    assert!(cmd.aliases.contains(&"d".to_string()));
}

#[test]
fn test_positional_argument() {
    let cmd = Deploy::command();
    let arg = cmd.arguments.iter().find(|a| a.name == "env").unwrap();
    assert!(arg.required);
    assert_eq!(arg.description, "target environment");
}

#[test]
fn test_flag_boolean() {
    let cmd = Deploy::command();
    let flag = cmd.flags.iter().find(|f| f.name == "dry-run").unwrap();
    assert_eq!(flag.short, Some('n'));
    assert!(!flag.takes_value);
}

#[test]
fn test_flag_with_value_and_default() {
    let cmd = Deploy::command();
    let flag = cmd.flags.iter().find(|f| f.name == "output").unwrap();
    assert!(flag.takes_value);
    assert_eq!(flag.default.as_deref(), Some("text"));
}

#[test]
fn test_best_practice() {
    let cmd = Deploy::command();
    assert!(cmd.best_practices.contains(&"always dry-run first".to_string()));
}

#[test]
fn test_canonical_override() {
    let cmd = derive_command(&named(
        "SomeOtherCommand",
        vec![StructAttr::Canonical(s("explicit-name"))],
        vec![],
    ))
    .unwrap();
    assert_eq!(cmd.canonical, "explicit-name");
}

#[test]
fn test_derive_command_parses_via_parser() {
    let registry = Registry::new(vec![Deploy::command()]);
    let parser = Parser::new(registry.commands());
    let parsed = parser.parse(&["deploy", "production"]).unwrap();
    assert_eq!(parsed.command.canonical, "deploy");
    assert_eq!(get(&parsed.args, "env"), Some("production"));
    assert_eq!(get(&parsed.flags, "dry-run"), None);
}

#[test]
fn test_derive_command_flag_parsing() {
    let registry = Registry::new(vec![Deploy::command()]);
    let parser = Parser::new(registry.commands());
    let parsed = parser.parse(&["deploy", "staging", "--dry-run", "--output=json"]).unwrap();
    assert_eq!(get(&parsed.args, "env"), Some("staging"));
    assert_eq!(get(&parsed.flags, "dry-run"), Some("true"));
    assert_eq!(get(&parsed.flags, "output"), Some("json"));
}

#[test]
fn test_derive_missing_required_argument() {
    let registry = Registry::new(vec![Deploy::command()]);
    let parser = Parser::new(registry.commands());
    let result = parser.parse(&["deploy"]);
    assert!(
        matches!(result, Err(ParseError::MissingArgument(ref s)) if s == "env"),
        "expected MissingArgument(env), got {:?}",
        result.err()
    );
}

#[test]
fn test_derive_unit_struct() {
    let cmd = derive_command(&unit(
        "VersionCmd",
        vec![StructAttr::Summary(s("Print version")), StructAttr::Canonical(s("version"))],
    ))
    .unwrap();
    assert_eq!(cmd.canonical, "version");
    assert_eq!(cmd.summary, "Print version");
    assert!(cmd.arguments.is_empty());
    assert!(cmd.flags.is_empty());
}

#[test]
fn test_derive_all_struct_attrs() {
    let cmd = derive_command(&unit(
        "FullCmd",
        vec![
            StructAttr::Canonical(s("full-cmd")),
            StructAttr::Summary(s("Full example")),
            StructAttr::Description(s("Shows every struct-level attribute")),
            StructAttr::Alias(s("fc")),
            StructAttr::Alias(s("full")),
            StructAttr::BestPractice(s("always dry-run first")),
            StructAttr::AntiPattern(s("skipping tests")),
        ],
    ))
    .unwrap();
    assert_eq!(cmd.canonical, "full-cmd");
    assert_eq!(cmd.summary, "Full example");
    assert!(!cmd.description.is_empty());
    assert!(cmd.aliases.contains(&"fc".to_string()));
    assert!(cmd.aliases.contains(&"full".to_string()));
    assert!(cmd.best_practices.iter().any(|s| s.contains("dry-run")));
    assert!(cmd.anti_patterns.iter().any(|s| s.contains("skipping")));
}

#[test]
fn test_derive_unannotated_fields_skipped() {
    let cmd = derive_command(&named(
        "SkipFields",
        vec![StructAttr::Canonical(s("skip-test"))],
        vec![plain_field("_internal"), plain_field("_count")],
    ))
    .unwrap();
    assert!(cmd.arguments.is_empty());
    assert!(cmd.flags.is_empty());
}

#[test]
fn test_derive_camel_to_kebab_canonical() {
    let cmd = derive_command(&unit("DeployToStaging", vec![])).unwrap();
    assert_eq!(cmd.canonical, "deploy-to-staging");
}

#[test]
fn test_derive_snake_to_kebab_field_names() {
    let cmd = derive_command(&named(
        "NamingCheck",
        vec![],
        vec![
            field("source_path", vec![FieldAttr::Positional]),
            field("target_dir", vec![FieldAttr::Flag, FieldAttr::TakesValue]),
        ],
    ))
    .unwrap();
    assert!(cmd.arguments.iter().any(|a| a.name == "source-path"), "expected source-path");
    assert!(cmd.flags.iter().any(|f| f.name == "target-dir"), "expected target-dir");
}

#[test]
fn test_derive_positional_order_preserved() {
    let cmd = derive_command(&named(
        "MultiPos",
        vec![],
        vec![
            field("first", vec![FieldAttr::Positional, FieldAttr::Required]),
            field("second", vec![FieldAttr::Positional]),
        ],
    ))
    .unwrap();
    assert_eq!(cmd.arguments.len(), 2);
    assert_eq!(cmd.arguments[0].name, "first");
    assert!(cmd.arguments[0].required);
    assert_eq!(cmd.arguments[1].name, "second");
    assert!(!cmd.arguments[1].required);
}

#[test]
fn test_derive_flag_all_attrs() {
    let cmd = derive_command(&named(
        "FlagTest",
        vec![],
        vec![
            field(
                "format",
                vec![
                    FieldAttr::Flag,
                    FieldAttr::Short('f'),
                    FieldAttr::TakesValue,
                    FieldAttr::Description(s("output format")),
                    FieldAttr::Default(s("json")),
                ],
            ),
            field(
                "dry_run",
                vec![FieldAttr::Flag, FieldAttr::Short('n'), FieldAttr::Description(s("dry run"))],
            ),
        ],
    ))
    .unwrap();
    let fmt = cmd.flags.iter().find(|f| f.name == "format").unwrap();
    assert_eq!(fmt.short, Some('f'));
    assert!(fmt.takes_value);
    assert_eq!(fmt.default.as_deref(), Some("json"));
    let dry = cmd.flags.iter().find(|f| f.name == "dry-run").unwrap();
    assert_eq!(dry.short, Some('n'));
    assert!(!dry.takes_value);
}

#[test]
fn test_derive_e2e_registry_and_parser() {
    let run_job = derive_command(&named(
        "RunJob",
        vec![StructAttr::Summary(s("Run a job")), StructAttr::Alias(s("j"))],
        vec![
            field(
                "name",
                vec![FieldAttr::Positional, FieldAttr::Required, FieldAttr::Description(s("job name"))],
            ),
            field(
                "parallel",
                vec![
                    FieldAttr::Flag,
                    FieldAttr::Short('p'),
                    FieldAttr::TakesValue,
                    FieldAttr::Description(s("parallelism")),
                    FieldAttr::Default(s("1")),
                ],
            ),
        ],
    ))
    .unwrap();
    let registry = Registry::new(vec![run_job]);
    let parser = Parser::new(registry.commands());
    let p = parser.parse(&["j", "nightly"]).unwrap();
    assert_eq!(p.command.canonical, "run-job");
    assert_eq!(get(&p.args, "name"), Some("nightly"));
    assert_eq!(get(&p.flags, "parallel"), Some("1"));
    let p2 = parser.parse(&["run-job", "daily", "--parallel=4"]).unwrap();
    assert_eq!(get(&p2.args, "name"), Some("daily"));
    assert_eq!(get(&p2.flags, "parallel"), Some("4"));
}

#[test]
fn test_camel_to_kebab() {
    assert_eq!(camel_to_kebab("Deploy"), "deploy");
    assert_eq!(camel_to_kebab("DeployCommand"), "deploy-command");
    assert_eq!(camel_to_kebab("RemoteAdd"), "remote-add");
    assert_eq!(camel_to_kebab("SomeOtherCommand"), "some-other-command");
}

#[test]
fn test_snake_to_kebab() {
    assert_eq!(snake_to_kebab("dry_run"), "dry-run");
    assert_eq!(snake_to_kebab("output"), "output");
    assert_eq!(snake_to_kebab("env"), "env");
}

#[test]
fn test_camel_to_kebab_single_word() {
    assert_eq!(camel_to_kebab("Deploy"), "deploy");
}

#[test]
fn test_snake_to_kebab_multi_word() {
    assert_eq!(snake_to_kebab("dry_run_mode"), "dry-run-mode");
}

// ── Rejected items ──────────────────────────────────────────────────────────

#[test]
fn both_positional_and_flag_is_rejected() {
    let err = derive_command(&named(
        "Bad",
        vec![],
        vec![field(
            "field",
            vec![FieldAttr::Positional, FieldAttr::Flag, FieldAttr::Description(s("ambiguous"))],
        )],
    ))
    .unwrap_err();
    assert_eq!(err.message(), "a field cannot be both `positional` and `flag` — choose one");
}

#[test]
fn enum_is_rejected() {
    let err = derive_command(&DeriveInput { ident: s("MyEnum"), attrs: vec![], data: ItemData::Enum })
        .unwrap_err();
    assert_eq!(
        err.message(),
        "`#[derive(ArgotCommand)]` cannot be used on enum `MyEnum` — only structs are supported"
    );
}

#[test]
fn missing_kind_is_rejected() {
    let err = derive_command(&named(
        "Bad",
        vec![],
        vec![field("field", vec![FieldAttr::Description(s("no kind specified"))])],
    ))
    .unwrap_err();
    assert_eq!(
        err.message(),
        "field `field` has `#[argot(...)]` but is missing a kind — add `positional` or `flag`"
    );
}

#[test]
fn tuple_struct_and_unknown_keys_are_rejected() {
    let err = derive_command(&DeriveInput {
        ident: s("Pair"),
        attrs: vec![],
        data: ItemData::Struct(FieldsShape::Unnamed),
    })
    .unwrap_err();
    assert!(matches!(err, DeriveError::TupleFields(ref i) if i == "Pair"));
    let err = derive_command(&unit("X", vec![StructAttr::Unknown(s("colour"))])).unwrap_err();
    assert!(err.message().starts_with("unknown struct-level argot attribute `colour`"));
    let err = derive_command(&named("X", vec![], vec![field("f", vec![FieldAttr::Unknown(s("nope"))])]))
        .unwrap_err();
    assert!(err.message().starts_with("unknown field-level argot attribute `nope`"));
}

#[test]
fn duplicate_short_flags_fail_to_build() {
    let err = derive_command(&named(
        "Dup",
        vec![],
        vec![
            field("alpha", vec![FieldAttr::Flag, FieldAttr::Short('a')]),
            field("another", vec![FieldAttr::Flag, FieldAttr::Short('a')]),
        ],
    ))
    .unwrap_err();
    assert_eq!(err.message(), "duplicate short flag `-a`");
}
