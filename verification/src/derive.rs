//! Commands described by a struct's `#[argot(...)]` attributes.
//!
//! A struct annotated for the command derive names a command: the struct's
//! name in kebab-case (or an explicit `canonical`), its struct-level
//! attributes (summary, description, aliases, best practices, anti-patterns)
//! and one positional argument or flag per annotated field, named by the
//! field in kebab-case. This module holds that mapping, from the struct's
//! attributes (already read as typed values) to the command.
use vstd::prelude::*;
use crate::flag::{opt_view, Flag};
use crate::model::{Argument, BuildError, Command};
use crate::text::{ascii_lower, char_is_lowercase, char_is_uppercase, is_lower, is_upper, views};

verus! {

broadcast use vstd::string::group_string_axioms;

/// A type that describes a command, as the command derive implements it
/// from the type's `#[argot(...)]` attributes.
pub trait ArgotCommand {
    /// The command this type describes.
    fn command() -> Command;
}

// ── Names ───────────────────────────────────────────────────────────────────

/// `CamelCase` in kebab-case: a `-` before each uppercase letter that
/// follows a lowercase one, and every character ASCII-lowercased.
pub open spec fn kebab_of_camel(s: Seq<char>) -> Seq<char>
    decreases s.len(),
{
    if s.len() == 0 {
        seq![]
    } else {
        let i = s.len() - 1;
        let prev = kebab_of_camel(s.drop_last());
        let with_dash = if is_upper(s[i]) && i > 0 && is_lower(s[i - 1]) {
            prev.push('-')
        } else {
            prev
        };
        with_dash.push(ascii_lower(s[i]))
    }
}

/// Convert `CamelCase` to `kebab-case`.
pub fn camel_to_kebab(name: &str) -> (r: String)
    ensures
        r@ == kebab_of_camel(name@),
        forall|i: int| 0 <= i < r@.len() ==> !('A' <= #[trigger] r@[i] && r@[i] <= 'Z'),
{
    let chars = crate::text::chars_of(name);
    let mut out = String::new();
    let mut i: usize = 0;
    while i < chars.len()
        invariant
            i <= chars.len(),
            chars@ == name@,
            out@ == kebab_of_camel(chars@.take(i as int)),
            forall|k: int| 0 <= k < out@.len() ==> !('A' <= #[trigger] out@[k] && out@[k] <= 'Z'),
        decreases chars.len() - i,
    {
        let c = chars[i];
        proof {
            assert(chars@.take(i + 1).drop_last() =~= chars@.take(i as int));
            assert(chars@.take(i + 1)[i as int] == c);
            if i > 0 {
                assert(chars@.take(i + 1)[i - 1] == chars@[i - 1]);
            }
        }
        if char_is_uppercase(c) && i > 0 && char_is_lowercase(chars[i - 1]) {
            crate::text::push_char(&mut out, '-');
        }
        let l = if 'A' <= c && c <= 'Z' {
            let b: u8 = c as u8;
            proof {
                assert(b == c as u32);
            }
            ((b + 32) as char)
        } else {
            c
        };
        proof {
            assert(l == ascii_lower(c));
        }
        crate::text::push_char(&mut out, l);
        i = i + 1;
    }
    proof {
        assert(chars@.take(chars.len() as int) =~= chars@);
    }
    out
}

/// A field name (`snake_case`) as a command-line name (`kebab-case`): every
/// `_` becomes `-`.
pub fn snake_to_kebab(name: &str) -> (r: String)
    ensures
        r@ == crate::text::replace_char(name@, '_', '-'),
        r@.len() == name@.len(),
        forall|i: int| 0 <= i < r@.len() ==> #[trigger] r@[i] != '_',
{
    let chars = crate::text::chars_of(name);
    let mut out = String::new();
    let mut i: usize = 0;
    while i < chars.len()
        invariant
            i <= chars.len(),
            chars@ == name@,
            out@ == crate::text::replace_char(chars@.take(i as int), '_', '-'),
        decreases chars.len() - i,
    {
        let c = chars[i];
        let d = if c == '_' {
            '-'
        } else {
            c
        };
        crate::text::push_char(&mut out, d);
        proof {
            assert(crate::text::replace_char(chars@.take(i + 1), '_', '-') =~= crate::text::replace_char(
                chars@.take(i as int),
                '_',
                '-',
            ).push(d));
        }
        i = i + 1;
    }
    proof {
        assert(chars@.take(chars.len() as int) =~= chars@);
    }
    out
}

// ── Attributes ──────────────────────────────────────────────────────────────

/// One entry of a struct-level `#[argot(...)]` attribute.
pub enum StructAttr {
    /// `canonical = "name"`.
    Canonical(String),
    /// `summary = "text"`.
    Summary(String),
    /// `description = "text"`.
    Description(String),
    /// `alias = "a"` (repeatable).
    Alias(String),
    /// `best_practice = "text"` (repeatable).
    BestPractice(String),
    /// `anti_pattern = "text"` (repeatable).
    AntiPattern(String),
    /// Any other key.
    Unknown(String),
}

/// One entry of a field-level `#[argot(...)]` attribute.
pub enum FieldAttr {
    /// `positional`.
    Positional,
    /// `flag`.
    Flag,
    /// `required`.
    Required,
    /// `takes_value`.
    TakesValue,
    /// `short = 'c'`.
    Short(char),
    /// `description = "text"`.
    Description(String),
    /// `default = "value"`.
    Default(String),
    /// Any other key.
    Unknown(String),
}

/// A field of the struct: its name and the entries of its `#[argot(...)]`
/// attributes, `None` when it has none.
pub struct FieldInput {
    pub ident: String,
    pub argot: Option<Vec<FieldAttr>>,
}

/// The fields of the item.
pub enum FieldsShape {
    /// Named fields.
    Named(Vec<FieldInput>),
    /// A unit struct.
    Unit,
    /// Tuple fields.
    Unnamed,
}

/// What the item is.
pub enum ItemData {
    Struct(FieldsShape),
    Enum,
    Union,
}

/// The annotated item: its name, the entries of its `#[argot(...)]`
/// attributes, and its data.
pub struct DeriveInput {
    pub ident: String,
    pub attrs: Vec<StructAttr>,
    pub data: ItemData,
}

/// Why no command can be derived.
#[derive(Debug, PartialEq, Eq)]
pub enum DeriveError {
    /// The item is an enum or a union (named by `kind`), not a struct.
    NotAStruct { kind: String, ident: String },
    /// The struct has tuple fields.
    TupleFields(String),
    /// A struct-level key is not recognised.
    UnknownStructAttr(String),
    /// A field-level key is not recognised.
    UnknownFieldAttr(String),
    /// A field is marked both `positional` and `flag`.
    BothPositionalAndFlag(String),
    /// An annotated field is marked neither `positional` nor `flag`.
    MissingKind(String),
    /// The command (or one of its arguments or flags) fails to build.
    Build(BuildError),
}

/// The struct-level attributes, read.
pub struct StructAttrs {
    pub canonical: Option<String>,
    pub summary: Option<String>,
    pub description: Option<String>,
    pub aliases: Vec<String>,
    pub best_practices: Vec<String>,
    pub anti_patterns: Vec<String>,
}

/// The field-level attributes, read.
#[derive(Debug, PartialEq, Eq)]
pub struct FieldAttrs {
    pub positional: bool,
    pub flag: bool,
    pub required: bool,
    pub short: Option<char>,
    pub takes_value: bool,
    pub description: Option<String>,
    pub default: Option<String>,
}

/// [`StructAttrs`] with its strings taken as character sequences.
#[verifier::ext_equal]
pub struct StructAttrsView {
    pub canonical: Option<Seq<char>>,
    pub summary: Option<Seq<char>>,
    pub description: Option<Seq<char>>,
    pub aliases: Seq<Seq<char>>,
    pub best_practices: Seq<Seq<char>>,
    pub anti_patterns: Seq<Seq<char>>,
}

impl View for StructAttrs {
    type V = StructAttrsView;

    open spec fn view(&self) -> StructAttrsView {
        StructAttrsView {
            canonical: opt_view(self.canonical),
            summary: opt_view(self.summary),
            description: opt_view(self.description),
            aliases: views(self.aliases@),
            best_practices: views(self.best_practices@),
            anti_patterns: views(self.anti_patterns@),
        }
    }
}

/// [`FieldAttrs`] with its strings taken as character sequences.
pub struct FieldAttrsView {
    pub positional: bool,
    pub flag: bool,
    pub required: bool,
    pub short: Option<char>,
    pub takes_value: bool,
    pub description: Option<Seq<char>>,
    pub default: Option<Seq<char>>,
}

impl View for FieldAttrs {
    type V = FieldAttrsView;

    open spec fn view(&self) -> FieldAttrsView {
        FieldAttrsView {
            positional: self.positional,
            flag: self.flag,
            required: self.required,
            short: self.short,
            takes_value: self.takes_value,
            description: opt_view(self.description),
            default: opt_view(self.default),
        }
    }
}

/// The first unknown key among struct-level entries, if any.
pub open spec fn first_unknown_struct_attr(attrs: Seq<StructAttr>) -> Option<Seq<char>>
    decreases attrs.len(),
{
    if attrs.len() == 0 {
        None
    } else {
        match attrs[0] {
            StructAttr::Unknown(k) => Some(k@),
            _ => first_unknown_struct_attr(attrs.drop_first()),
        }
    }
}

/// The struct-level entries read in order; a later single-valued entry
/// replaces an earlier one, repeatable ones accumulate.
pub open spec fn struct_attrs_of(attrs: Seq<StructAttr>) -> StructAttrsView
    decreases attrs.len(),
{
    if attrs.len() == 0 {
        StructAttrsView {
            canonical: None,
            summary: None,
            description: None,
            aliases: seq![],
            best_practices: seq![],
            anti_patterns: seq![],
        }
    } else {
        let p = struct_attrs_of(attrs.drop_last());
        match attrs.last() {
            StructAttr::Canonical(s) => StructAttrsView { canonical: Some(s@), ..p },
            StructAttr::Summary(s) => StructAttrsView { summary: Some(s@), ..p },
            StructAttr::Description(s) => StructAttrsView { description: Some(s@), ..p },
            StructAttr::Alias(s) => StructAttrsView { aliases: p.aliases.push(s@), ..p },
            StructAttr::BestPractice(s) => StructAttrsView {
                best_practices: p.best_practices.push(s@),
                ..p
            },
            StructAttr::AntiPattern(s) => StructAttrsView {
                anti_patterns: p.anti_patterns.push(s@),
                ..p
            },
            StructAttr::Unknown(_) => p,
        }
    }
}

/// The first unknown key among field-level entries, if any.
pub open spec fn first_unknown_field_attr(attrs: Seq<FieldAttr>) -> Option<Seq<char>>
    decreases attrs.len(),
{
    if attrs.len() == 0 {
        None
    } else {
        match attrs[0] {
            FieldAttr::Unknown(k) => Some(k@),
            _ => first_unknown_field_attr(attrs.drop_first()),
        }
    }
}

/// The field-level entries read in order.
pub open spec fn field_attrs_of(attrs: Seq<FieldAttr>) -> FieldAttrsView
    decreases attrs.len(),
{
    if attrs.len() == 0 {
        FieldAttrsView {
            positional: false,
            flag: false,
            required: false,
            short: None,
            takes_value: false,
            description: None,
            default: None,
        }
    } else {
        let p = field_attrs_of(attrs.drop_last());
        match attrs.last() {
            FieldAttr::Positional => FieldAttrsView { positional: true, ..p },
            FieldAttr::Flag => FieldAttrsView { flag: true, ..p },
            FieldAttr::Required => FieldAttrsView { required: true, ..p },
            FieldAttr::TakesValue => FieldAttrsView { takes_value: true, ..p },
            FieldAttr::Short(c) => FieldAttrsView { short: Some(c), ..p },
            FieldAttr::Description(s) => FieldAttrsView { description: Some(s@), ..p },
            FieldAttr::Default(s) => FieldAttrsView { default: Some(s@), ..p },
            FieldAttr::Unknown(_) => p,
        }
    }
}

/// The message of an unknown struct-level key.
pub open spec fn unknown_struct_attr_text(k: Seq<char>) -> Seq<char> {
    "unknown struct-level argot attribute `"@ + k
        + "` — valid keys are: canonical, summary, description, alias, best_practice, anti_pattern"@
}

/// The message of an unknown field-level key.
pub open spec fn unknown_field_attr_text(k: Seq<char>) -> Seq<char> {
    "unknown field-level argot attribute `"@ + k
        + "` — valid keys are: positional, flag, required, short, takes_value, description, default"@
}

/// Read the struct-level entries: the first unknown key is an error.
pub fn parse_struct_attrs(attrs: &Vec<StructAttr>) -> (r: Result<StructAttrs, DeriveError>)
    ensures
        match first_unknown_struct_attr(attrs@) {
            Some(k) => r matches Err(DeriveError::UnknownStructAttr(e)) && e@ == k,
            None => r matches Ok(a) && a@ == struct_attrs_of(attrs@),
        },
{
    let mut out = StructAttrs {
        canonical: None,
        summary: None,
        description: None,
        aliases: Vec::new(),
        best_practices: Vec::new(),
        anti_patterns: Vec::new(),
    };
    let mut i: usize = 0;
    proof {
        assert(out@ =~= struct_attrs_of(attrs@.take(0)));
        assert(attrs@.skip(0) =~= attrs@);
    }
    while i < attrs.len()
        invariant
            i <= attrs.len(),
            out@ == struct_attrs_of(attrs@.take(i as int)),
            first_unknown_struct_attr(attrs@) == first_unknown_struct_attr(attrs@.skip(i as int)),
        decreases attrs.len() - i,
    {
        proof {
            assert(attrs@.take(i + 1).drop_last() =~= attrs@.take(i as int));
            assert(attrs@.skip(i as int)[0] == attrs@[i as int]);
            assert(attrs@.skip(i as int).drop_first() =~= attrs@.skip(i + 1));
        }
        let ghost before = out@;
        match &attrs[i] {
            StructAttr::Canonical(s) => {
                out.canonical = Some(s.clone());
            },
            StructAttr::Summary(s) => {
                out.summary = Some(s.clone());
            },
            StructAttr::Description(s) => {
                out.description = Some(s.clone());
            },
            StructAttr::Alias(s) => {
                out.aliases.push(s.clone());
                proof {
                    assert(views(out.aliases@) =~= before.aliases.push(s@));
                }
            },
            StructAttr::BestPractice(s) => {
                out.best_practices.push(s.clone());
                proof {
                    assert(views(out.best_practices@) =~= before.best_practices.push(s@));
                }
            },
            StructAttr::AntiPattern(s) => {
                out.anti_patterns.push(s.clone());
                proof {
                    assert(views(out.anti_patterns@) =~= before.anti_patterns.push(s@));
                }
            },
            StructAttr::Unknown(k) => {
                return Err(DeriveError::UnknownStructAttr(k.clone()));
            },
        }
        proof {
            assert(out@ =~= struct_attrs_of(attrs@.take(i + 1)));
        }
        i = i + 1;
    }
    proof {
        assert(attrs@.take(attrs.len() as int) =~= attrs@);
        assert(attrs@.skip(attrs.len() as int) =~= Seq::<StructAttr>::empty());
    }
    Ok(out)
}

/// Read a field's entries: `None` for a field without `#[argot(...)]`; the
/// first unknown key is an error.
pub fn parse_field_attrs(attrs: &Option<Vec<FieldAttr>>) -> (r: Result<Option<FieldAttrs>, DeriveError>)
    ensures
        match attrs {
            None => r matches Ok(None),
            Some(list) => match first_unknown_field_attr(list@) {
                Some(k) => r matches Err(DeriveError::UnknownFieldAttr(e)) && e@ == k,
                None => r matches Ok(Some(a)) && a@ == field_attrs_of(list@),
            },
        },
{
    match attrs {
        None => Ok(None),
        Some(list) => match read_field_entries(list) {
            Ok(a) => Ok(Some(a)),
            Err(e) => Err(e),
        },
    }
}

/// Read the entries of a field's `#[argot(...)]` attributes.
fn read_field_entries(list: &Vec<FieldAttr>) -> (r: Result<FieldAttrs, DeriveError>)
    ensures
        match first_unknown_field_attr(list@) {
            Some(k) => r matches Err(DeriveError::UnknownFieldAttr(e)) && e@ == k,
            None => r matches Ok(a) && a@ == field_attrs_of(list@),
        },
{
    let mut out = FieldAttrs {
        positional: false,
        flag: false,
        required: false,
        short: None,
        takes_value: false,
        description: None,
        default: None,
    };
    let mut i: usize = 0;
    proof {
        assert(out@ == field_attrs_of(list@.take(0)));
        assert(list@.skip(0) =~= list@);
    }
    while i < list.len()
        invariant
            i <= list.len(),
            out@ == field_attrs_of(list@.take(i as int)),
            first_unknown_field_attr(list@) == first_unknown_field_attr(list@.skip(i as int)),
        decreases list.len() - i,
    {
        proof {
            assert(list@.take(i + 1).drop_last() =~= list@.take(i as int));
            assert(list@.skip(i as int)[0] == list@[i as int]);
            assert(list@.skip(i as int).drop_first() =~= list@.skip(i + 1));
        }
        match &list[i] {
            FieldAttr::Positional => {
                out.positional = true;
            },
            FieldAttr::Flag => {
                out.flag = true;
            },
            FieldAttr::Required => {
                out.required = true;
            },
            FieldAttr::TakesValue => {
                out.takes_value = true;
            },
            FieldAttr::Short(c) => {
                out.short = Some(*c);
            },
            FieldAttr::Description(s) => {
                out.description = Some(s.clone());
            },
            FieldAttr::Default(s) => {
                out.default = Some(s.clone());
            },
            FieldAttr::Unknown(k) => {
                return Err(DeriveError::UnknownFieldAttr(k.clone()));
            },
        }
        i = i + 1;
    }
    proof {
        assert(list@.take(list.len() as int) =~= list@);
        assert(list@.skip(list.len() as int) =~= Seq::<FieldAttr>::empty());
    }
    Ok(out)
}


// ── The derived command ─────────────────────────────────────────────────────

/// [`DeriveError`] with its strings taken as character sequences.
pub enum DeriveErrorView {
    NotAStruct(Seq<char>, Seq<char>),
    TupleFields(Seq<char>),
    UnknownStructAttr(Seq<char>),
    UnknownFieldAttr(Seq<char>),
    BothPositionalAndFlag(Seq<char>),
    MissingKind(Seq<char>),
    Build(crate::model::BuildErrorView),
}

impl View for DeriveError {
    type V = DeriveErrorView;

    open spec fn view(&self) -> DeriveErrorView {
        match self {
            DeriveError::NotAStruct { kind, ident } => DeriveErrorView::NotAStruct(kind@, ident@),
            DeriveError::TupleFields(s) => DeriveErrorView::TupleFields(s@),
            DeriveError::UnknownStructAttr(s) => DeriveErrorView::UnknownStructAttr(s@),
            DeriveError::UnknownFieldAttr(s) => DeriveErrorView::UnknownFieldAttr(s@),
            DeriveError::BothPositionalAndFlag(s) => DeriveErrorView::BothPositionalAndFlag(s@),
            DeriveError::MissingKind(s) => DeriveErrorView::MissingKind(s@),
            DeriveError::Build(e) => DeriveErrorView::Build(e@),
        }
    }
}

/// The text of a derive error.
pub open spec fn derive_error_text(e: DeriveErrorView) -> Seq<char> {
    match e {
        DeriveErrorView::NotAStruct(kind, ident) => "`#[derive(ArgotCommand)]` cannot be used on "@
            + kind + " `"@ + ident + "` — only structs are supported"@,
        DeriveErrorView::TupleFields(ident) => "`"@ + ident
            + "` uses tuple fields — `#[derive(ArgotCommand)]` requires named fields (e.g., `struct Foo { name: String }`)"@,
        DeriveErrorView::UnknownStructAttr(k) => unknown_struct_attr_text(k),
        DeriveErrorView::UnknownFieldAttr(k) => unknown_field_attr_text(k),
        DeriveErrorView::BothPositionalAndFlag(_) => "a field cannot be both `positional` and `flag` — choose one"@,
        DeriveErrorView::MissingKind(f) => "field `"@ + f
            + "` has `#[argot(...)]` but is missing a kind — add `positional` or `flag`"@,
        DeriveErrorView::Build(b) => crate::model::build_error_text(b),
    }
}

impl DeriveError {
    /// The human-readable text.
    pub fn message(&self) -> (r: String)
        ensures
            r@ == derive_error_text(self@),
    {
        match self {
            DeriveError::NotAStruct { kind, ident } => {
                let mut r = String::from_str("`#[derive(ArgotCommand)]` cannot be used on ");
                r.append(kind.as_str());
                r.append(" `");
                r.append(ident.as_str());
                r.append("` — only structs are supported");
                r
            },
            DeriveError::TupleFields(ident) => {
                let mut r = String::from_str("`");
                r.append(ident.as_str());
                r.append(
                    "` uses tuple fields — `#[derive(ArgotCommand)]` requires named fields (e.g., `struct Foo { name: String }`)",
                );
                r
            },
            DeriveError::UnknownStructAttr(k) => {
                let mut r = String::from_str("unknown struct-level argot attribute `");
                r.append(k.as_str());
                r.append(
                    "` — valid keys are: canonical, summary, description, alias, best_practice, anti_pattern",
                );
                r
            },
            DeriveError::UnknownFieldAttr(k) => {
                let mut r = String::from_str("unknown field-level argot attribute `");
                r.append(k.as_str());
                r.append(
                    "` — valid keys are: positional, flag, required, short, takes_value, description, default",
                );
                r
            },
            DeriveError::BothPositionalAndFlag(_) => String::from_str(
                "a field cannot be both `positional` and `flag` — choose one",
            ),
            DeriveError::MissingKind(f) => {
                let mut r = String::from_str("field `");
                r.append(f.as_str());
                r.append("` has `#[argot(...)]` but is missing a kind — add `positional` or `flag`");
                r
            },
            DeriveError::Build(b) => b.message(),
        }
    }
}

/// What one field contributes.
pub enum FieldStep {
    /// Nothing: the field has no `#[argot(...)]` attribute.
    Skip,
    /// An error.
    Fail(DeriveErrorView),
    /// A positional argument.
    Arg(crate::model::ArgumentView),
    /// A flag.
    Flag(crate::flag::FlagView),
}

/// What one field contributes: its name in kebab-case names the argument
/// or flag, which takes the field's `required`, `description` and
/// `default` (and for a flag `short` and `takes_value`).
pub open spec fn field_step(f: FieldInput) -> FieldStep {
    match f.argot {
        None => FieldStep::Skip,
        Some(list) => match first_unknown_field_attr(list@) {
            Some(k) => FieldStep::Fail(DeriveErrorView::UnknownFieldAttr(k)),
            None => {
                let a = field_attrs_of(list@);
                let name = crate::text::replace_char(f.ident@, '_', '-');
                let description = match a.description {
                    Some(d) => d,
                    None => seq![],
                };
                if a.positional && a.flag {
                    FieldStep::Fail(DeriveErrorView::BothPositionalAndFlag(f.ident@))
                } else if a.positional || a.flag {
                    if crate::text::all_ws(name) {
                        FieldStep::Fail(
                            DeriveErrorView::Build(crate::model::BuildErrorView::EmptyCanonical),
                        )
                    } else if a.positional {
                        FieldStep::Arg(
                            crate::model::ArgumentView {
                                name,
                                description,
                                required: a.required,
                                variadic: false,
                                default: a.default,
                            },
                        )
                    } else {
                        FieldStep::Flag(
                            crate::flag::FlagView {
                                name,
                                short: a.short,
                                description,
                                required: a.required,
                                takes_value: a.takes_value,
                                default: a.default,
                                choices: None,
                                repeatable: false,
                                env: None,
                            },
                        )
                    }
                } else {
                    FieldStep::Fail(DeriveErrorView::MissingKind(f.ident@))
                }
            },
        },
    }
}

/// The arguments and flags of the fields, in field order, or the first
/// field's error.
pub open spec fn fields_result(fields: Seq<FieldInput>) -> Result<
    (Seq<crate::model::ArgumentView>, Seq<crate::flag::FlagView>),
    DeriveErrorView,
>
    decreases fields.len(),
{
    if fields.len() == 0 {
        Ok((seq![], seq![]))
    } else {
        match fields_result(fields.drop_last()) {
            Err(e) => Err(e),
            Ok(p) => match field_step(fields.last()) {
                FieldStep::Skip => Ok(p),
                FieldStep::Fail(e) => Err(e),
                FieldStep::Arg(a) => Ok((p.0.push(a), p.1)),
                FieldStep::Flag(f) => Ok((p.0, p.1.push(f))),
            },
        }
    }
}

/// The command derived from an item, or why there is none: only structs
/// with named fields (or none) qualify; the struct-level attributes are
/// read first, then each field in order; the command is named by
/// `canonical` or else by the struct's name in kebab-case.
pub open spec fn derive_outcome(input: DeriveInput) -> Result<crate::markdown::CommandDraft, DeriveErrorView> {
    match input.data {
        ItemData::Enum => Err(DeriveErrorView::NotAStruct("enum"@, input.ident@)),
        ItemData::Union => Err(DeriveErrorView::NotAStruct("union"@, input.ident@)),
        ItemData::Struct(shape) => match shape {
            FieldsShape::Unnamed => Err(DeriveErrorView::TupleFields(input.ident@)),
            _ => {
                let fields = match shape {
                    FieldsShape::Named(v) => v@,
                    _ => seq![],
                };
                match first_unknown_struct_attr(input.attrs@) {
                    Some(k) => Err(DeriveErrorView::UnknownStructAttr(k)),
                    None => {
                        let sa = struct_attrs_of(input.attrs@);
                        match fields_result(fields) {
                            Err(e) => Err(e),
                            Ok(p) => {
                                let d = crate::markdown::CommandDraft {
                                    canonical: match sa.canonical {
                                        Some(c) => c,
                                        None => kebab_of_camel(input.ident@),
                                    },
                                    aliases: sa.aliases,
                                    spellings: seq![],
                                    semantic_aliases: seq![],
                                    summary: match sa.summary {
                                        Some(x) => x,
                                        None => seq![],
                                    },
                                    description: match sa.description {
                                        Some(x) => x,
                                        None => seq![],
                                    },
                                    arguments: p.0,
                                    flags: p.1,
                                    examples: seq![],
                                    best_practices: sa.best_practices,
                                    anti_patterns: sa.anti_patterns,
                                    mutating: false,
                                    extra: Map::empty(),
                                };
                                match crate::markdown::draft_error(d) {
                                    Some(e) => Err(DeriveErrorView::Build(e)),
                                    None => Ok(d),
                                }
                            },
                        }
                    },
                }
            },
        },
    }
}

/// The kebab-case names and required marks of the fields marked
/// positional (when `positional`) or flag (otherwise), in field order;
/// fields without an `#[argot(...)]` attribute are left out.
pub open spec fn marked_fields(fields: Seq<FieldInput>, positional: bool) -> Seq<(Seq<char>, bool)>
    decreases fields.len(),
{
    if fields.len() == 0 {
        seq![]
    } else {
        let prev = marked_fields(fields.drop_last(), positional);
        let f = fields.last();
        match f.argot {
            None => prev,
            Some(list) => {
                let a = field_attrs_of(list@);
                if (positional && a.positional) || (!positional && a.flag) {
                    prev.push((crate::text::replace_char(f.ident@, '_', '-'), a.required))
                } else {
                    prev
                }
            },
        }
    }
}

/// Names and required marks of argument views.
pub open spec fn argument_marks(s: Seq<crate::model::ArgumentView>) -> Seq<(Seq<char>, bool)> {
    s.map_values(|a: crate::model::ArgumentView| (a.name, a.required))
}

/// Names and required marks of flag views.
pub open spec fn flag_marks(s: Seq<crate::flag::FlagView>) -> Seq<(Seq<char>, bool)> {
    s.map_values(|f: crate::flag::FlagView| (f.name, f.required))
}

proof fn lemma_fields_result_marked(fields: Seq<FieldInput>)
    ensures
        fields_result(fields) matches Ok(p) ==> argument_marks(p.0) == marked_fields(fields, true)
            && flag_marks(p.1) == marked_fields(fields, false),
    decreases fields.len(),
{
    if fields.len() > 0 {
        lemma_fields_result_marked(fields.drop_last());
        if let Ok(p) = fields_result(fields.drop_last()) {
            match field_step(fields.last()) {
                FieldStep::Arg(a) => {
                    assert(argument_marks(p.0.push(a)) =~= argument_marks(p.0).push((a.name, a.required)));
                },
                FieldStep::Flag(f) => {
                    assert(flag_marks(p.1.push(f)) =~= flag_marks(p.1).push((f.name, f.required)));
                },
                _ => {},
            }
        }
    }
}

/// The named fields of an item (none for a unit struct or anything else).
pub open spec fn item_fields(input: DeriveInput) -> Seq<FieldInput> {
    match input.data {
        ItemData::Struct(FieldsShape::Named(v)) => v@,
        _ => seq![],
    }
}

/// Derive naming and order: a derived command is named by the `canonical`
/// attribute or else by the struct's name in kebab-case; its arguments are
/// the fields marked positional and its flags the fields marked flag, in
/// field order, each named by the field in kebab-case and required as
/// marked; fields without an `#[argot(...)]` attribute contribute nothing.
pub proof fn lemma_derive_naming(input: DeriveInput)
    ensures
        derive_outcome(input) matches Ok(d) ==> {
            &&& d.canonical == match struct_attrs_of(input.attrs@).canonical {
                Some(c) => c,
                None => kebab_of_camel(input.ident@),
            }
            &&& argument_marks(d.arguments) == marked_fields(item_fields(input), true)
            &&& flag_marks(d.flags) == marked_fields(item_fields(input), false)
        },
{
    lemma_fields_result_marked(item_fields(input));
}

/// The argument or flag a field contributes.
fn field_item(f: &FieldInput) -> (r: Result<Option<Result<Argument, Flag>>, DeriveError>)
    ensures
        match field_step(*f) {
            FieldStep::Skip => r matches Ok(None),
            FieldStep::Fail(e) => r matches Err(x) && x@ == e,
            FieldStep::Arg(a) => r matches Ok(Some(Ok(x))) && x@ == a,
            FieldStep::Flag(g) => r matches Ok(Some(Err(x))) && x@ == g,
        },
{
    let fa = match parse_field_attrs(&f.argot) {
        Err(e) => {
            return Err(e);
        },
        Ok(None) => {
            return Ok(None);
        },
        Ok(Some(fa)) => fa,
    };
    if fa.positional && fa.flag {
        return Err(DeriveError::BothPositionalAndFlag(f.ident.clone()));
    }
    if !fa.positional && !fa.flag {
        return Err(DeriveError::MissingKind(f.ident.clone()));
    }
    let name = snake_to_kebab(f.ident.as_str());
    if fa.positional {
        let mut b = Argument::builder(name.as_str());
        if fa.required {
            b = b.required();
        }
        match &fa.description {
            Some(d) => {
                b = b.description(d.as_str());
            },
            None => {},
        }
        match &fa.default {
            Some(d) => {
                b = b.default_value(d.as_str());
            },
            None => {},
        }
        assert(b@.description =~= (match fa@.description {
            Some(d) => d,
            None => seq![],
        }));
        match b.build() {
            Ok(a) => Ok(Some(Ok(a))),
            Err(e) => Err(DeriveError::Build(e)),
        }
    } else {
        let mut b = Flag::builder(name.as_str());
        match fa.short {
            Some(c) => {
                b = b.short(c);
            },
            None => {},
        }
        if fa.required {
            b = b.required();
        }
        if fa.takes_value {
            b = b.takes_value();
        }
        match &fa.description {
            Some(d) => {
                b = b.description(d.as_str());
            },
            None => {},
        }
        match &fa.default {
            Some(d) => {
                b = b.default_value(d.as_str());
            },
            None => {},
        }
        assert(b@.description =~= (match fa@.description {
            Some(d) => d,
            None => seq![],
        }));
        match b.build() {
            Ok(g) => Ok(Some(Err(g))),
            Err(e) => Err(DeriveError::Build(e)),
        }
    }
}

/// The command an annotated item describes (what the generated
/// `ArgotCommand::command` returns), or why none can be derived.
pub fn derive_command(input: &DeriveInput) -> (r: Result<Command, DeriveError>)
    ensures
        match derive_outcome(*input) {
            Ok(d) => r matches Ok(c) && crate::markdown::command_holds(c, d),
            Err(e) => r matches Err(x) && x@ == e,
        },
{
    let fields: &Vec<FieldInput> = match &input.data {
        ItemData::Enum => {
            return Err(
                DeriveError::NotAStruct {
                    kind: String::from_str("enum"),
                    ident: input.ident.clone(),
                },
            );
        },
        ItemData::Union => {
            return Err(
                DeriveError::NotAStruct {
                    kind: String::from_str("union"),
                    ident: input.ident.clone(),
                },
            );
        },
        ItemData::Struct(FieldsShape::Unnamed) => {
            return Err(DeriveError::TupleFields(input.ident.clone()));
        },
        ItemData::Struct(FieldsShape::Named(v)) => v,
        ItemData::Struct(FieldsShape::Unit) => &Vec::new(),
    };
    let ghost fs = fields@;
    proof {
        assert(fs == match input.data {
            ItemData::Struct(FieldsShape::Named(v)) => v@,
            _ => Seq::<FieldInput>::empty(),
        });
    }
    let sa = match parse_struct_attrs(&input.attrs) {
        Err(e) => {
            return Err(e);
        },
        Ok(sa) => sa,
    };
    let mut args: Vec<Argument> = Vec::new();
    let mut flags: Vec<Flag> = Vec::new();
    let mut i: usize = 0;
    while i < fields.len()
        invariant
            i <= fields.len(),
            fs == fields@,
            first_unknown_struct_attr(input.attrs@) is None,
            input.data matches ItemData::Struct(sh) && !(sh is Unnamed),
            fs == match input.data {
                ItemData::Struct(FieldsShape::Named(v)) => v@,
                _ => Seq::<FieldInput>::empty(),
            },
            fields_result(fs.take(i as int)) matches Ok(p) && crate::model::argument_views(args@)
                == p.0 && crate::flag::flag_views(flags@) == p.1,
        decreases fields.len() - i,
    {
        proof {
            assert(fs.take(i + 1).drop_last() =~= fs.take(i as int));
            assert(fs.take(i + 1).last() == fs[i as int]);
        }
        let ghost a0 = args@;
        let ghost f0 = flags@;
        match field_item(&fields[i]) {
            Err(e) => {
                proof {
                    assert(fields_result(fs.take(i + 1)) == Err::<
                        (Seq<crate::model::ArgumentView>, Seq<crate::flag::FlagView>),
                        DeriveErrorView,
                    >(e@));
                    lemma_fields_result_err(fs, i as int + 1);
                    assert(fields_result(fs) == Err::<
                        (Seq<crate::model::ArgumentView>, Seq<crate::flag::FlagView>),
                        DeriveErrorView,
                    >(e@));
                    assert(first_unknown_struct_attr(input.attrs@) is None);
                    assert(input.data matches ItemData::Struct(sh) && !(sh is Unnamed));
                }
                return Err(e);
            },
            Ok(None) => {},
            Ok(Some(Ok(a))) => {
                args.push(a);
                proof {
                    assert(crate::model::argument_views(args@) =~= crate::model::argument_views(
                        a0,
                    ).push(args@.last()@));
                }
            },
            Ok(Some(Err(g))) => {
                flags.push(g);
                proof {
                    assert(crate::flag::flag_views(flags@) =~= crate::flag::flag_views(f0).push(
                        flags@.last()@,
                    ));
                }
            },
        }
        i = i + 1;
    }
    proof {
        assert(fs.take(fields.len() as int) =~= fs);
    }
    let canonical = match &sa.canonical {
        Some(c) => c.clone(),
        None => camel_to_kebab(input.ident.as_str()),
    };
    let mut b = Command::builder(canonical.as_str());
    match &sa.summary {
        Some(s) => {
            b = b.summary(s.as_str());
        },
        None => {},
    }
    match &sa.description {
        Some(d) => {
            b = b.description(d.as_str());
        },
        None => {},
    }
    let ghost sav = sa@;
    let StructAttrs {
        canonical: _,
        summary: _,
        description: _,
        aliases,
        best_practices,
        anti_patterns,
    } = sa;
    let b = crate::model::CommandBuilder {
        aliases,
        best_practices,
        anti_patterns,
        arguments: args,
        flags,
        ..b
    };
    proof {
        assert(b.summary@ =~= (match sav.summary {
            Some(x) => x,
            None => seq![],
        }));
        assert(b.description@ =~= (match sav.description {
            Some(x) => x,
            None => seq![],
        }));
        assert(crate::model::pairs_map(b.extra@) =~= Map::<Seq<char>, Seq<char>>::empty());
        assert(crate::markdown::example_pairs(b.examples@) =~= Seq::<(Seq<char>, Seq<char>)>::empty());
        assert(views(b.spellings@) =~= Seq::<Seq<char>>::empty());
        assert(views(b.semantic_aliases@) =~= Seq::<Seq<char>>::empty());
    }
    let ghost draft = crate::markdown::CommandDraft {
        canonical: canonical@,
        aliases: views(b.aliases@),
        spellings: seq![],
        semantic_aliases: seq![],
        summary: b.summary@,
        description: b.description@,
        arguments: crate::model::argument_views(b.arguments@),
        flags: crate::flag::flag_views(b.flags@),
        examples: seq![],
        best_practices: views(b.best_practices@),
        anti_patterns: views(b.anti_patterns@),
        mutating: false,
        extra: Map::empty(),
    };
    proof {
        assert(crate::markdown::builder_holds(b, draft));
        crate::markdown::lemma_draft_error(b, draft);
    }
    match b.build() {
        Ok(c) => Ok(c),
        Err(e) => Err(DeriveError::Build(e)),
    }
}

/// Once a field fails, every longer prefix fails the same way.
proof fn lemma_fields_result_err(fs: Seq<FieldInput>, n: int)
    requires
        0 < n <= fs.len(),
        fields_result(fs.take(n)) is Err,
    ensures
        fields_result(fs) == fields_result(fs.take(n)),
    decreases fs.len() - n,
{
    if n < fs.len() {
        assert(fs.take(n + 1).drop_last() =~= fs.take(n));
        lemma_fields_result_err(fs, n + 1);
    } else {
        assert(fs.take(n) =~= fs);
    }
}

} // verus!
