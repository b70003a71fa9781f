use argot_cmd::flag::Flag;
use argot_cmd::input_validation::{InputValidator, ValidationError};
use argot_cmd::model::{Argument, Command};
use argot_cmd::parser::Parser;

// ── Path traversal ────────────────────────────────────────────────────────

#[test]
fn path_traversal_forward_slash_prefix() {
    let v = InputValidator::new().check_path_traversal();
    assert!(v.validate_value("f", "/etc/passwd").is_err());
}

#[test]
fn path_traversal_tilde_prefix() {
    let v = InputValidator::new().check_path_traversal();
    assert!(v.validate_value("f", "~/.ssh/id_rsa").is_err());
}

#[test]
fn path_traversal_dotdot_unix() {
    let v = InputValidator::new().check_path_traversal();
    assert!(v.validate_value("f", "../../secret").is_err());
}

#[test]
fn path_traversal_dotdot_windows() {
    let v = InputValidator::new().check_path_traversal();
    assert!(v.validate_value("f", "..\\windows\\system32").is_err());
}

#[test]
fn path_traversal_safe_relative_path() {
    let v = InputValidator::new().check_path_traversal();
    assert!(v.validate_value("f", "subdir/file.txt").is_ok());
}

#[test]
fn path_traversal_safe_filename() {
    let v = InputValidator::new().check_path_traversal();
    assert!(v.validate_value("f", "README.md").is_ok());
}

#[test]
fn path_traversal_disabled_does_not_flag() {
    let v = InputValidator::new(); // traversal check off
    assert!(v.validate_value("f", "/etc/passwd").is_ok());
}

// ── Control characters ────────────────────────────────────────────────────

#[test]
fn control_char_null_byte() {
    let v = InputValidator::new().check_control_chars();
    assert!(v.validate_value("f", "hello\x00world").is_err());
}

#[test]
fn control_char_carriage_return() {
    let v = InputValidator::new().check_control_chars();
    assert!(v.validate_value("f", "hello\rworld").is_err());
}

#[test]
fn control_char_delete() {
    let v = InputValidator::new().check_control_chars();
    assert!(v.validate_value("f", "hello\x7fworld").is_err());
}

#[test]
fn control_char_tab_is_allowed() {
    let v = InputValidator::new().check_control_chars();
    assert!(v.validate_value("f", "hello\tworld").is_ok());
}

#[test]
fn control_char_newline_is_allowed() {
    let v = InputValidator::new().check_control_chars();
    assert!(v.validate_value("f", "hello\nworld").is_ok());
}

#[test]
fn control_char_safe_value() {
    let v = InputValidator::new().check_control_chars();
    assert!(v.validate_value("f", "ordinary text 123").is_ok());
}

#[test]
fn control_char_disabled_does_not_flag() {
    let v = InputValidator::new(); // control char check off
    assert!(v.validate_value("f", "hello\x00world").is_ok());
}

// ── Query injection ───────────────────────────────────────────────────────

#[test]
fn query_injection_question_mark() {
    let v = InputValidator::new().check_query_injection();
    assert!(v.validate_value("url", "example.com?admin=1").is_err());
}

#[test]
fn query_injection_ampersand_key_val() {
    let v = InputValidator::new().check_query_injection();
    assert!(v.validate_value("q", "value&role=admin").is_err());
}

#[test]
fn query_injection_ampersand_no_equals_safe() {
    let v = InputValidator::new().check_query_injection();
    // A lone '&' without an '=' after it is not flagged as key=val injection.
    assert!(v.validate_value("q", "Tom & Jerry").is_ok());
}

#[test]
fn query_injection_safe_value() {
    let v = InputValidator::new().check_query_injection();
    assert!(v.validate_value("q", "normal search term").is_ok());
}

#[test]
fn query_injection_disabled_does_not_flag() {
    let v = InputValidator::new(); // query check off
    assert!(v.validate_value("q", "example.com?admin=1").is_ok());
}

// ── URL encoding ──────────────────────────────────────────────────────────

#[test]
fn url_encoding_percent_2f() {
    let v = InputValidator::new().check_url_encoding();
    assert!(v.validate_value("f", "hello%2Fworld").is_err());
}

#[test]
fn url_encoding_percent_00() {
    let v = InputValidator::new().check_url_encoding();
    assert!(v.validate_value("f", "null%00byte").is_err());
}

#[test]
fn url_encoding_uppercase_hex() {
    let v = InputValidator::new().check_url_encoding();
    assert!(v.validate_value("f", "%2E%2E%2F").is_err());
}

#[test]
fn url_encoding_lone_percent_is_safe() {
    let v = InputValidator::new().check_url_encoding();
    // A bare '%' not followed by two hex digits is not flagged.
    assert!(v.validate_value("f", "50% off").is_ok());
}

#[test]
fn url_encoding_safe_value() {
    let v = InputValidator::new().check_url_encoding();
    assert!(v.validate_value("f", "hello world").is_ok());
}

#[test]
fn url_encoding_disabled_does_not_flag() {
    let v = InputValidator::new(); // url encoding check off
    assert!(v.validate_value("f", "hello%2Fworld").is_ok());
}

// ── strict() helper ───────────────────────────────────────────────────────

#[test]
fn strict_catches_path_traversal() {
    let v = InputValidator::strict();
    let err = v.validate_value("f", "../etc").unwrap_err();
    assert!(matches!(err, ValidationError::PathTraversal { .. }));
}

#[test]
fn strict_catches_control_char() {
    let v = InputValidator::strict();
    let err = v.validate_value("f", "a\x01b").unwrap_err();
    assert!(matches!(err, ValidationError::ControlCharacter { .. }));
}

#[test]
fn strict_catches_query_injection() {
    let v = InputValidator::strict();
    let err = v.validate_value("f", "x?y=z").unwrap_err();
    assert!(matches!(err, ValidationError::QueryInjection { .. }));
}

#[test]
fn strict_catches_url_encoding() {
    let v = InputValidator::strict();
    let err = v.validate_value("f", "%41").unwrap_err();
    assert!(matches!(err, ValidationError::UrlEncoding { .. }));
}

#[test]
fn strict_safe_value_passes() {
    let v = InputValidator::strict();
    assert!(v.validate_value("f", "hello world").is_ok());
}

// ── validate_parsed ───────────────────────────────────────────────────────

#[test]
fn validate_parsed_clean_args_pass() {
    let cmd = Command::builder("get")
        .argument(Argument::builder("id").required().build().unwrap())
        .build()
        .unwrap();
    let cmds = vec![cmd];
    let parser = Parser::new(&cmds);
    let parsed = parser.parse(&["get", "42"]).unwrap();

    let v = InputValidator::strict();
    assert!(v.validate_parsed(&parsed).is_ok());
}

#[test]
fn validate_parsed_bad_arg_fails() {
    let cmd = Command::builder("get")
        .argument(Argument::builder("id").required().build().unwrap())
        .build()
        .unwrap();
    let cmds = vec![cmd];
    let parser = Parser::new(&cmds);
    let parsed = parser.parse(&["get", "../secret"]).unwrap();

    let v = InputValidator::new().check_path_traversal();
    assert!(v.validate_parsed(&parsed).is_err());
}

#[test]
fn validate_parsed_bad_flag_fails() {
    let cmd = Command::builder("deploy")
        .flag(
            Flag::builder("env")
                .takes_value()
                .required()
                .build()
                .unwrap(),
        )
        .build()
        .unwrap();
    let cmds = vec![cmd];
    let parser = Parser::new(&cmds);
    let parsed = parser.parse(&["deploy", "--env", "prod?debug=1"]).unwrap();

    let v = InputValidator::new().check_query_injection();
    assert!(v.validate_parsed(&parsed).is_err());
}

// ── Middleware impl ───────────────────────────────────────────────────────

#[test]
fn error_display_path_traversal() {
    let err = ValidationError::PathTraversal {
        field: "file".to_owned(),
        value: "../secret".to_owned(),
    };
    let msg = err.message();
    assert!(msg.contains("file"));
    assert!(msg.contains("../secret"));
}

#[test]
fn error_display_control_character() {
    let err = ValidationError::ControlCharacter {
        field: "name".to_owned(),
        value: "a\x00b".to_owned(),
    };
    let msg = err.message();
    assert!(msg.contains("name"));
}

#[test]
fn error_display_query_injection() {
    let err = ValidationError::QueryInjection {
        field: "q".to_owned(),
        value: "x?y=1".to_owned(),
    };
    let msg = err.message();
    assert!(msg.contains("q"));
}

#[test]
fn error_display_url_encoding() {
    let err = ValidationError::UrlEncoding {
        field: "val".to_owned(),
        value: "%2F".to_owned(),
    };
    let msg = err.message();
    assert!(msg.contains("val"));
    assert!(msg.contains("%2F"));
}


#[test]
fn middleware_before_dispatch_ok_for_clean_input() {
    let cmd = argot_cmd::model::Command::builder("ping").build().unwrap();
    let cmds = vec![cmd];
    let parsed = argot_cmd::parser::Parser::new(&cmds).parse(&["ping"]).unwrap();
    let v = InputValidator::strict();
    assert!(v.validate_parsed(&parsed).is_ok());
}

#[test]
fn middleware_before_dispatch_err_for_bad_input() {
    let cmd = argot_cmd::model::Command::builder("get")
        .argument(argot_cmd::model::Argument::builder("path").required().build().unwrap())
        .build()
        .unwrap();
    let cmds = vec![cmd];
    let parsed = argot_cmd::parser::Parser::new(&cmds).parse(&["get", "/etc/passwd"]).unwrap();
    let v = InputValidator::new().check_path_traversal();
    let result = v.validate_parsed(&parsed);
    assert!(result.is_err());
}
