//! Named flags (`--verbose`, `-o json`) and their builder.
use vstd::prelude::*;
use crate::model::BuildError;
use crate::text::{all_ws, is_ws, trim};

verus! {

/// A named flag accepted by a command, e.g. `--verbose` or `-v`.
#[derive(Debug, Clone, PartialEq, Eq, Hash, PartialOrd, Ord)]
pub struct Flag {
    /// Long name, used as `--name` and as the key of the parsed flag map.
    pub name: String,
    /// Optional single-character short form, used as `-c`.
    pub short: Option<char>,
    /// Human-readable description shown in help output.
    pub description: String,
    /// Whether parsing fails when the flag is absent.
    pub required: bool,
    /// Whether the flag consumes a value (`--name value` / `--name=value`).
    pub takes_value: bool,
    /// Value used when the flag is not provided.
    pub default: Option<String>,
    /// Allowed values (case-sensitive), when restricted.
    pub choices: Option<Vec<String>>,
    /// Whether the flag may appear several times.
    pub repeatable: bool,
    /// Environment variable consulted when the flag is absent.
    pub env: Option<String>,
}

/// Consuming builder for [`Flag`].
pub struct FlagBuilder {
    pub name: String,
    pub short: Option<char>,
    pub description: String,
    pub required: bool,
    pub takes_value: bool,
    pub default: Option<String>,
    pub choices: Option<Vec<String>>,
    pub repeatable: bool,
    pub env: Option<String>,
}

/// A [`Flag`] (or its builder) with its strings taken as character sequences.
pub struct FlagView {
    pub name: Seq<char>,
    pub short: Option<char>,
    pub description: Seq<char>,
    pub required: bool,
    pub takes_value: bool,
    pub default: Option<Seq<char>>,
    pub choices: Option<Seq<Seq<char>>>,
    pub repeatable: bool,
    pub env: Option<Seq<char>>,
}

/// The view of an optional list of strings.
pub open spec fn opt_list_view(o: Option<Vec<String>>) -> Option<Seq<Seq<char>>> {
    match o {
        Some(v) => Some(string_views(v@)),
        None => None,
    }
}

impl View for Flag {
    type V = FlagView;

    open spec fn view(&self) -> FlagView {
        FlagView {
            name: self.name@,
            short: self.short,
            description: self.description@,
            required: self.required,
            takes_value: self.takes_value,
            default: opt_view(self.default),
            choices: opt_list_view(self.choices),
            repeatable: self.repeatable,
            env: opt_view(self.env),
        }
    }
}

impl View for FlagBuilder {
    type V = FlagView;

    open spec fn view(&self) -> FlagView {
        FlagView {
            name: self.name@,
            short: self.short,
            description: self.description@,
            required: self.required,
            takes_value: self.takes_value,
            default: opt_view(self.default),
            choices: opt_list_view(self.choices),
            repeatable: self.repeatable,
            env: opt_view(self.env),
        }
    }
}

/// Views of a list of flags.
pub open spec fn flag_views(f: Seq<Flag>) -> Seq<FlagView> {
    f.map_values(|x: Flag| x@)
}

/// Views of a list of string slices.
pub open spec fn str_views(v: Seq<&str>) -> Seq<Seq<char>> {
    v.map_values(|s: &str| s@)
}

/// Views of a list of owned strings.
pub open spec fn string_views(v: Seq<String>) -> Seq<Seq<char>> {
    v.map_values(|s: String| s@)
}

/// The view of an optional string.
pub open spec fn opt_view(o: Option<String>) -> Option<Seq<char>> {
    match o {
        Some(s) => Some(s@),
        None => None,
    }
}

/// Owned copies of a list of string slices.
pub fn to_strings(v: &[&str]) -> (r: Vec<String>)
    ensures
        string_views(r@) == str_views(v@),
{
    let mut out: Vec<String> = Vec::new();
    let mut i: usize = 0;
    while i < v.len()
        invariant
            i <= v.len(),
            string_views(out@) == str_views(v@.subrange(0, i as int)),
        decreases v.len() - i,
    {
        out.push(String::from_str(v[i]));
        assert(str_views(v@.subrange(0, i + 1)) == str_views(v@.subrange(0, i as int)).push(
            v@[i as int]@,
        ));
        i = i + 1;
    }
    assert(v@.subrange(0, v.len() as int) == v@);
    out
}

impl Flag {
    /// A builder for a flag with the given long name; every other field
    /// starts empty, `false` or absent.
    pub fn builder(name: &str) -> (b: FlagBuilder)
        ensures
            b.name@ == name@,
            b.short is None,
            b.description@ == Seq::<char>::empty(),
            !b.required && !b.takes_value && !b.repeatable,
            b.default is None && b.choices is None && b.env is None,
    {
        FlagBuilder {
            name: String::from_str(name),
            short: None,
            description: String::new(),
            required: false,
            takes_value: false,
            default: None,
            choices: None,
            repeatable: false,
            env: None,
        }
    }
}

impl FlagBuilder {
    /// Set the short single-character form.
    pub fn short(self, c: char) -> (b: Self)
        ensures
            b == (FlagBuilder { short: Some(c), ..self }),
    {
        FlagBuilder { short: Some(c), ..self }
    }

    /// Set the description.
    pub fn description(self, d: &str) -> (b: Self)
        ensures
            b.description@ == d@,
            b.name == self.name && b.short == self.short && b.required == self.required
                && b.takes_value == self.takes_value && b.default == self.default && b.choices
                == self.choices && b.repeatable == self.repeatable && b.env == self.env,
    {
        FlagBuilder { description: String::from_str(d), ..self }
    }

    /// Mark the flag as required.
    pub fn required(self) -> (b: Self)
        ensures
            b == (FlagBuilder { required: true, ..self }),
    {
        FlagBuilder { required: true, ..self }
    }

    /// Mark the flag as value-taking.
    pub fn takes_value(self) -> (b: Self)
        ensures
            b == (FlagBuilder { takes_value: true, ..self }),
    {
        FlagBuilder { takes_value: true, ..self }
    }

    /// Set the value used when the flag is absent.
    pub fn default_value(self, d: &str) -> (b: Self)
        ensures
            opt_view(b.default) == Some(d@),
            b.name == self.name && b.short == self.short && b.description == self.description
                && b.required == self.required && b.takes_value == self.takes_value && b.choices
                == self.choices && b.repeatable == self.repeatable && b.env == self.env,
    {
        FlagBuilder { default: Some(String::from_str(d)), ..self }
    }

    /// Restrict the value to one of `choices`.
    pub fn choices(self, choices: &[&str]) -> (b: Self)
        ensures
            b.choices matches Some(c) && string_views(c@) == str_views(choices@),
            b.name == self.name && b.short == self.short && b.description == self.description
                && b.required == self.required && b.takes_value == self.takes_value && b.default
                == self.default && b.repeatable == self.repeatable && b.env == self.env,
    {
        FlagBuilder { choices: Some(to_strings(choices)), ..self }
    }

    /// Allow the flag to appear more than once.
    pub fn repeatable(self) -> (b: Self)
        ensures
            b == (FlagBuilder { repeatable: true, ..self }),
    {
        FlagBuilder { repeatable: true, ..self }
    }

    /// Name an environment variable consulted when the flag is absent.
    pub fn env(self, var_name: &str) -> (b: Self)
        ensures
            opt_view(b.env) == Some(var_name@),
            b.name == self.name && b.short == self.short && b.description == self.description
                && b.required == self.required && b.takes_value == self.takes_value && b.default
                == self.default && b.choices == self.choices && b.repeatable == self.repeatable,
    {
        FlagBuilder { env: Some(String::from_str(var_name)), ..self }
    }

    /// Finish the flag. Fails with [`BuildError::EmptyCanonical`] exactly
    /// when the name is empty or all whitespace; otherwise every field is
    /// carried over unchanged.
    pub fn build(self) -> (r: Result<Flag, BuildError>)
        ensures
            r is Err <==> all_ws(self.name@),
            r matches Err(e) ==> e == BuildError::EmptyCanonical,
            r matches Ok(f) ==> f.name == self.name && f.short == self.short && f.description
                == self.description && f.required == self.required && f.takes_value
                == self.takes_value && f.default == self.default && f.choices == self.choices
                && f.repeatable == self.repeatable && f.env == self.env,
    {
        if crate::text::is_blank(self.name.as_str()) {
            return Err(BuildError::EmptyCanonical);
        }
        Ok(
            Flag {
                name: self.name,
                short: self.short,
                description: self.description,
                required: self.required,
                takes_value: self.takes_value,
                default: self.default,
                choices: self.choices,
                repeatable: self.repeatable,
                env: self.env,
            },
        )
    }
}

} // verus!
