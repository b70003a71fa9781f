//! Hardened validation of argument and flag values supplied by agents.
//!
//! [`InputValidator`] holds four opt-in checks; [`InputValidator::validate_value`]
//! applies the enabled ones in a fixed order and reports the first that fails.
use vstd::prelude::*;
use crate::parser::ParsedCommand;
use crate::text::{chars_of, contains_chars, contains_seq, debug_string, debug_text, is_hex};

verus! {

// ── Specifications ──────────────────────────────────────────────────────────

/// The four kinds of suspicious input a validator can look for.
#[derive(Clone, Copy, Debug, PartialEq, Eq, Structural)]
pub enum Check {
    /// `../`, `..\`, or a leading `/` or `~`.
    PathTraversal,
    /// An ASCII control character other than tab and newline.
    ControlCharacter,
    /// `?`, or `&` followed by a key and then `=`.
    QueryInjection,
    /// `%` followed by two hexadecimal digits.
    UrlEncoding,
}

/// `s` contains `../`, `..\`, or starts with `/` or `~`.
pub open spec fn has_path_traversal(s: Seq<char>) -> bool {
    ||| contains_seq(s, seq!['.', '.', '/'])
    ||| contains_seq(s, seq!['.', '.', '\\'])
    ||| (s.len() > 0 && (s[0] == '/' || s[0] == '~'))
}

/// A control character that the validator rejects: 0x00–0x1F or 0x7F,
/// except horizontal tab and newline.
pub open spec fn is_rejected_control(c: char) -> bool {
    ((c as u32) <= 0x1F || (c as u32) == 0x7F) && c != '\t' && c != '\n'
}

/// `s` holds a rejected control character.
pub open spec fn has_control_char(s: Seq<char>) -> bool {
    exists|i: int| 0 <= i < s.len() && is_rejected_control(#[trigger] s[i])
}

/// The `&` at `i` is followed, at its first `=`, by at least one other
/// character in between (an `&key=value` pattern).
pub open spec fn amp_key_value_at(s: Seq<char>, i: int) -> bool {
    &&& 0 <= i && i + 1 < s.len()
    &&& s[i] == '&'
    &&& s[i + 1] != '='
    &&& exists|j: int| i + 1 < j < s.len() && #[trigger] s[j] == '='
}

/// `s` contains `?` or an `&key=value` pattern.
pub open spec fn has_query_injection(s: Seq<char>) -> bool {
    ||| s.contains('?')
    ||| exists|i: int| amp_key_value_at(s, i)
}

/// A `%XX` sequence with two hexadecimal digits starts at `i`.
pub open spec fn percent_escape_at(s: Seq<char>, i: int) -> bool {
    0 <= i && i + 2 < s.len() && s[i] == '%' && is_hex(s[i + 1]) && is_hex(s[i + 2])
}

/// `s` contains a `%XX` sequence.
pub open spec fn has_url_encoding(s: Seq<char>) -> bool {
    exists|i: int| percent_escape_at(s, i)
}

/// What a validation error holds: the failed check, the field and the value.
pub struct ValidationErrorView {
    pub check: Check,
    pub field: Seq<char>,
    pub value: Seq<char>,
}

/// Errors produced by [`InputValidator`].
#[derive(Debug, PartialEq, Eq)]
pub enum ValidationError {
    /// The value contains a path traversal sequence.
    PathTraversal { field: String, value: String },
    /// The value contains an ASCII control character.
    ControlCharacter { field: String, value: String },
    /// The value contains an embedded query string.
    QueryInjection { field: String, value: String },
    /// The value contains a percent-encoded sequence.
    UrlEncoding { field: String, value: String },
}

impl View for ValidationError {
    type V = ValidationErrorView;

    open spec fn view(&self) -> ValidationErrorView {
        match self {
            ValidationError::PathTraversal { field, value } => ValidationErrorView {
                check: Check::PathTraversal,
                field: field@,
                value: value@,
            },
            ValidationError::ControlCharacter { field, value } => ValidationErrorView {
                check: Check::ControlCharacter,
                field: field@,
                value: value@,
            },
            ValidationError::QueryInjection { field, value } => ValidationErrorView {
                check: Check::QueryInjection,
                field: field@,
                value: value@,
            },
            ValidationError::UrlEncoding { field, value } => ValidationErrorView {
                check: Check::UrlEncoding,
                field: field@,
                value: value@,
            },
        }
    }
}

/// The message text of a validation error.
pub open spec fn validation_message(e: ValidationErrorView) -> Seq<char> {
    let what = match e.check {
        Check::PathTraversal => "path traversal sequence"@,
        Check::ControlCharacter => "control character"@,
        Check::QueryInjection => "embedded query parameter"@,
        Check::UrlEncoding => "URL-encoded sequence"@,
    };
    "field `"@ + e.field + "` contains a "@ + what + " in value: "@ + debug_text(e.value)
}

impl ValidationError {
    /// The human-readable message, e.g.
    /// ``field `file` contains a path traversal sequence in value: "../x"``.
    pub fn message(&self) -> (r: String)
        ensures
            r@ == validation_message(self@),
    {
        let (field, value, what) = match self {
            ValidationError::PathTraversal { field, value } => (
                field,
                value,
                "path traversal sequence",
            ),
            ValidationError::ControlCharacter { field, value } => (
                field,
                value,
                "control character",
            ),
            ValidationError::QueryInjection { field, value } => (
                field,
                value,
                "embedded query parameter",
            ),
            ValidationError::UrlEncoding { field, value } => (field, value, "URL-encoded sequence"),
        };
        let mut out = String::from_str("field `");
        out.append(field.as_str());
        out.append("` contains a ");
        out.append(what);
        out.append(" in value: ");
        let dbg = debug_string(value.as_str());
        out.append(dbg.as_str());
        out
    }
}

/// Opt-in validator for argument and flag values.
#[derive(Debug, Clone, Copy, PartialEq, Eq)]
pub struct InputValidator {
    pub path_traversal: bool,
    pub control_chars: bool,
    pub query_injection: bool,
    pub url_encoding: bool,
}

impl InputValidator {
    /// The first enabled check that `value` fails, in the order path
    /// traversal, control characters, query injection, URL encoding.
    pub open spec fn first_failure(self, value: Seq<char>) -> Option<Check> {
        if self.path_traversal && has_path_traversal(value) {
            Some(Check::PathTraversal)
        } else if self.control_chars && has_control_char(value) {
            Some(Check::ControlCharacter)
        } else if self.query_injection && has_query_injection(value) {
            Some(Check::QueryInjection)
        } else if self.url_encoding && has_url_encoding(value) {
            Some(Check::UrlEncoding)
        } else {
            None
        }
    }

    /// A validator with every check disabled.
    pub fn new() -> (r: Self)
        ensures
            !r.path_traversal && !r.control_chars && !r.query_injection && !r.url_encoding,
    {
        InputValidator {
            path_traversal: false,
            control_chars: false,
            query_injection: false,
            url_encoding: false,
        }
    }

    /// A validator with every check enabled.
    pub fn strict() -> (r: Self)
        ensures
            r.path_traversal && r.control_chars && r.query_injection && r.url_encoding,
    {
        InputValidator {
            path_traversal: true,
            control_chars: true,
            query_injection: true,
            url_encoding: true,
        }
    }

    /// Enable path-traversal detection.
    pub fn check_path_traversal(self) -> (r: Self)
        ensures
            r == (InputValidator { path_traversal: true, ..self }),
    {
        InputValidator { path_traversal: true, ..self }
    }

    /// Enable control-character detection.
    pub fn check_control_chars(self) -> (r: Self)
        ensures
            r == (InputValidator { control_chars: true, ..self }),
    {
        InputValidator { control_chars: true, ..self }
    }

    /// Enable embedded query-parameter detection.
    pub fn check_query_injection(self) -> (r: Self)
        ensures
            r == (InputValidator { query_injection: true, ..self }),
    {
        InputValidator { query_injection: true, ..self }
    }

    /// Enable percent-encoding detection.
    pub fn check_url_encoding(self) -> (r: Self)
        ensures
            r == (InputValidator { url_encoding: true, ..self }),
    {
        InputValidator { url_encoding: true, ..self }
    }

    /// Validate one named value against every enabled check; the first check
    /// (in the order of [`InputValidator::first_failure`]) that fails is
    /// reported.
    pub fn validate_value(&self, field: &str, value: &str) -> (r: Result<(), ValidationError>)
        ensures
            r is Ok <==> self.first_failure(value@) is None,
            r matches Err(e) ==> e@ == (ValidationErrorView {
                check: self.first_failure(value@)->0,
                field: field@,
                value: value@,
            }),
    {
        let v = chars_of(value);
        if self.path_traversal && contains_path_traversal(&v) {
            return Err(
                ValidationError::PathTraversal {
                    field: String::from_str(field),
                    value: String::from_str(value),
                },
            );
        }
        if self.control_chars && contains_control_char(&v) {
            return Err(
                ValidationError::ControlCharacter {
                    field: String::from_str(field),
                    value: String::from_str(value),
                },
            );
        }
        if self.query_injection && contains_query_injection(&v) {
            return Err(
                ValidationError::QueryInjection {
                    field: String::from_str(field),
                    value: String::from_str(value),
                },
            );
        }
        if self.url_encoding && contains_url_encoding(&v) {
            return Err(
                ValidationError::UrlEncoding {
                    field: String::from_str(field),
                    value: String::from_str(value),
                },
            );
        }
        Ok(())
    }

    /// Validate every `(name, value)` pair in order; the first failure is
    /// reported.
    pub fn validate_pairs(&self, pairs: &Vec<(String, String)>) -> (r: Result<
        (),
        ValidationError,
    >)
        ensures
            r is Ok <==> forall|i: int|
                0 <= i < pairs.len() ==> self.first_failure(#[trigger] pairs@[i].1@) is None,
            r matches Err(e) ==> exists|i: int|
                0 <= i < pairs.len() && (forall|k: int|
                    0 <= k < i ==> self.first_failure(#[trigger] pairs@[k].1@) is None)
                    && e@ == (ValidationErrorView {
                    check: self.first_failure(pairs@[i].1@)->0,
                    field: pairs@[i].0@,
                    value: pairs@[i].1@,
                }),
    {
        let mut i: usize = 0;
        while i < pairs.len()
            invariant
                i <= pairs.len(),
                forall|k: int| 0 <= k < i ==> self.first_failure(#[trigger] pairs@[k].1@) is None,
            decreases pairs.len() - i,
        {
            let r = self.validate_value(pairs[i].0.as_str(), pairs[i].1.as_str());
            if r.is_err() {
                return r;
            }
            i = i + 1;
        }
        Ok(())
    }

    /// Validate every argument value, then every flag value, each in order;
    /// the first failure is reported.
    pub fn validate_parsed(&self, parsed: &ParsedCommand) -> (r: Result<(), ValidationError>)
        ensures
            r is Ok <==> (forall|i: int|
                0 <= i < parsed.args.len() ==> self.first_failure(#[trigger] parsed.args@[i].1@)
                    is None) && (forall|i: int|
                0 <= i < parsed.flags.len() ==> self.first_failure(#[trigger] parsed.flags@[i].1@)
                    is None),
            r matches Err(e) ==> (exists|i: int|
                0 <= i < parsed.args.len() && (forall|k: int|
                    0 <= k < i ==> self.first_failure(#[trigger] parsed.args@[k].1@) is None)
                    && e@ == (ValidationErrorView {
                    check: self.first_failure(parsed.args@[i].1@)->0,
                    field: parsed.args@[i].0@,
                    value: parsed.args@[i].1@,
                })) || ((forall|i: int|
                0 <= i < parsed.args.len() ==> self.first_failure(#[trigger] parsed.args@[i].1@)
                    is None) && exists|i: int|
                0 <= i < parsed.flags.len() && (forall|k: int|
                    0 <= k < i ==> self.first_failure(#[trigger] parsed.flags@[k].1@) is None)
                    && e@ == (ValidationErrorView {
                    check: self.first_failure(parsed.flags@[i].1@)->0,
                    field: parsed.flags@[i].0@,
                    value: parsed.flags@[i].1@,
                })),
    {
        match self.validate_pairs(&parsed.args) {
            Err(e) => Err(e),
            Ok(()) => self.validate_pairs(&parsed.flags),
        }
    }
}

// ── Checks ──────────────────────────────────────────────────────────────────

/// `s` contains `../`, `..\`, or starts with `/` or `~`.
fn contains_path_traversal(v: &Vec<char>) -> (r: bool)
    ensures
        r == has_path_traversal(v@),
{
    let p1 = vec!['.', '.', '/'];
    let p2 = vec!['.', '.', '\\'];
    assert(p1@ == seq!['.', '.', '/']);
    assert(p2@ == seq!['.', '.', '\\']);
    contains_chars(v, &p1) || contains_chars(v, &p2) || (v.len() > 0 && (v[0] == '/' || v[0]
        == '~'))
}

/// `s` holds a control character other than tab and newline.
fn contains_control_char(v: &Vec<char>) -> (r: bool)
    ensures
        r == has_control_char(v@),
{
    let mut i: usize = 0;
    while i < v.len()
        invariant
            i <= v.len(),
            forall|k: int| 0 <= k < i ==> !is_rejected_control(#[trigger] v@[k]),
        decreases v.len() - i,
    {
        let c = v[i];
        let n = c as u32;
        if (n <= 0x1F || n == 0x7F) && c != '\t' && c != '\n' {
            assert(is_rejected_control(v@[i as int]));
            return true;
        }
        i = i + 1;
    }
    false
}

/// `s` contains `?` or an `&key=value` pattern.
fn contains_query_injection(v: &Vec<char>) -> (r: bool)
    ensures
        r == has_query_injection(v@),
{
    let mut i: usize = 0;
    while i < v.len()
        invariant
            i <= v.len(),
            forall|k: int| 0 <= k < i ==> v@[k] != '?',
        decreases v.len() - i,
    {
        if v[i] == '?' {
            assert(v@.contains('?')) by {
                assert(v@[i as int] == '?');
            }
            return true;
        }
        i = i + 1;
    }
    assert(!v@.contains('?'));
    // Scan from the right, remembering whether an `=` lies to the right.
    let mut j: usize = v.len();
    let mut eq_after = false;
    while j > 0
        invariant
            j <= v.len(),
            eq_after == (exists|m: int| j <= m < v.len() && #[trigger] v@[m] == '='),
            forall|k: int| j <= k < v.len() ==> !amp_key_value_at(v@, k),
        decreases j,
    {
        let k = j - 1;
        if v[k] == '&' && k + 1 < v.len() && v[k + 1] != '=' {
            // First `=` after k lies strictly beyond k+1 iff any `=` lies beyond k+1.
            let has_eq_beyond = eq_after;
            if has_eq_beyond {
                let ghost m = choose|m: int| j <= m < v.len() && #[trigger] v@[m] == '=';
                assert(v@[m] == '=');
                assert(m != k + 1);
                assert(amp_key_value_at(v@, k as int));
                return true;
            } else {
                assert(!amp_key_value_at(v@, k as int));
            }
        }
        if v[k] == '=' {
            eq_after = true;
        }
        j = k;
    }
    false
}

/// `s` contains `%` followed by two hexadecimal digits.
fn contains_url_encoding(v: &Vec<char>) -> (r: bool)
    ensures
        r == has_url_encoding(v@),
{
    let mut i: usize = 0;
    while i < v.len()
        invariant
            i <= v.len(),
            forall|k: int| 0 <= k < i ==> !percent_escape_at(v@, k),
        decreases v.len() - i,
    {
        if v[i] == '%' && v.len() - i > 2 && is_hex_exec(v[i + 1]) && is_hex_exec(v[i + 2]) {
            assert(percent_escape_at(v@, i as int));
            return true;
        }
        i = i + 1;
    }
    false
}

/// ASCII hexadecimal digit.
pub fn is_hex_exec(c: char) -> (r: bool)
    ensures
        r == is_hex(c),
{
    ('0' <= c && c <= '9') || ('a' <= c && c <= 'f') || ('A' <= c && c <= 'F')
}

// ── Laws ────────────────────────────────────────────────────────────────────

/// A validator with every check disabled accepts every value.
pub proof fn lemma_new_accepts_everything(v: InputValidator, value: Seq<char>)
    requires
        !v.path_traversal && !v.control_chars && !v.query_injection && !v.url_encoding,
    ensures
        v.first_failure(value) is None,
{
}

/// A strict validator rejects a value exactly when at least one of the four
/// checks would flag it.
pub proof fn lemma_strict_rejects_any_flagged(v: InputValidator, value: Seq<char>)
    requires
        v.path_traversal && v.control_chars && v.query_injection && v.url_encoding,
    ensures
        v.first_failure(value) is Some <==> (has_path_traversal(value) || has_control_char(value)
            || has_query_injection(value) || has_url_encoding(value)),
{
}

/// Enabling one more check never turns a rejection into an acceptance.
pub proof fn lemma_more_checks_reject_more(a: InputValidator, b: InputValidator, value: Seq<char>)
    requires
        a.path_traversal ==> b.path_traversal,
        a.control_chars ==> b.control_chars,
        a.query_injection ==> b.query_injection,
        a.url_encoding ==> b.url_encoding,
        a.first_failure(value) is Some,
    ensures
        b.first_failure(value) is Some,
{
}

} // verus!
