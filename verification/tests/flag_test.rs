use argot_cmd::flag::Flag;

#[test]
fn flag_test_builder_happy_path() {
    let flag = Flag::builder("verbose")
        .short('v')
        .description("verbose output")
        .build()
        .unwrap();
    assert_eq!(flag.name, "verbose");
    assert_eq!(flag.short, Some('v'));
    assert!(!flag.required);
    assert!(!flag.takes_value);
}

#[test]
fn test_builder_empty_name() {
    assert!(Flag::builder("").build().is_err());
    assert!(Flag::builder("  ").build().is_err());
}

#[test]
fn test_takes_value_with_default() {
    let flag = Flag::builder("output")
        .takes_value()
        .default_value("stdout")
        .build()
        .unwrap();
    assert!(flag.takes_value);
    assert_eq!(flag.default.as_deref(), Some("stdout"));
}
