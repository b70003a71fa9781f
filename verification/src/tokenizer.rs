//! Splitting an argument vector into typed tokens: plain words, long flags
//! (`--name`, `--name=value`), short flags (`-c`, `-cvalue`) and the `--`
//! separator, after which every argument is a plain word.
use vstd::prelude::*;
use crate::model::{first_where, lemma_first_where_spec};
use crate::text::{chars_of, string_of_range};

verus! {

broadcast use vstd::string::group_string_axioms;

/// One token of an argument vector.
#[derive(Debug, PartialEq, Eq)]
pub enum Token {
    /// A positional word (or the value of a preceding flag).
    Word(String),
    /// `--name` or `--name=value`.
    LongFlag { name: String, value: Option<String> },
    /// `-c` or `-crest`, where `rest` is an inline value or further short flags.
    ShortFlag { name: char, value: Option<String> },
    /// The `--` separator.
    Separator,
}

/// A [`Token`] with its strings taken as character sequences.
pub enum TokenView {
    Word(Seq<char>),
    LongFlag(Seq<char>, Option<Seq<char>>),
    ShortFlag(char, Option<Seq<char>>),
    Separator,
}

/// The view of an optional string.
pub open spec fn opt_chars(o: Option<String>) -> Option<Seq<char>> {
    match o {
        Some(s) => Some(s@),
        None => None,
    }
}

impl View for Token {
    type V = TokenView;

    open spec fn view(&self) -> TokenView {
        match self {
            Token::Word(w) => TokenView::Word(w@),
            Token::LongFlag { name, value } => TokenView::LongFlag(name@, opt_chars(*value)),
            Token::ShortFlag { name, value } => TokenView::ShortFlag(*name, opt_chars(*value)),
            Token::Separator => TokenView::Separator,
        }
    }
}

/// The views of a list of tokens.
pub open spec fn token_views(s: Seq<Token>) -> Seq<TokenView> {
    s.map_values(|t: Token| t@)
}

/// The character at `k` of `s` is `=`.
pub open spec fn is_eq_sign(s: Seq<char>) -> spec_fn(int) -> bool {
    |k: int| s[k] == '='
}

/// The token an argument stands for when no `--` precedes it.
pub open spec fn token_of(a: Seq<char>) -> TokenView {
    if a == seq!['-', '-'] {
        TokenView::Separator
    } else if a.len() >= 2 && a[0] == '-' && a[1] == '-' {
        let rest = a.subrange(2, a.len() as int);
        let e = first_where(0, rest.len() as int, is_eq_sign(rest));
        if e < rest.len() {
            TokenView::LongFlag(rest.subrange(0, e), Some(rest.subrange(e + 1, rest.len() as int)))
        } else {
            TokenView::LongFlag(rest, None)
        }
    } else if a.len() >= 2 && a[0] == '-' {
        TokenView::ShortFlag(
            a[1],
            if a.len() > 2 {
                Some(a.subrange(2, a.len() as int))
            } else {
                None
            },
        )
    } else {
        TokenView::Word(a)
    }
}

/// A `--` argument comes before position `i`.
pub open spec fn after_separator(argv: Seq<Seq<char>>, i: int) -> bool {
    exists|j: int| 0 <= j < i && argv[j] == seq!['-', '-']
}

/// The tokens of an argument vector: one per argument, a plain word once a
/// `--` has been seen.
pub open spec fn tokenize_spec(argv: Seq<Seq<char>>) -> Seq<TokenView> {
    Seq::new(
        argv.len(),
        |i: int|
            if after_separator(argv, i) {
                TokenView::Word(argv[i])
            } else {
                token_of(argv[i])
            },
    )
}

/// The views of a list of string slices.
pub open spec fn arg_views(v: Seq<&str>) -> Seq<Seq<char>> {
    v.map_values(|s: &str| s@)
}

/// The token `a` stands for outside a `--` section.
fn classify(a: &str) -> (t: Token)
    ensures
        t@ == token_of(a@),
{
    let v = chars_of(a);
    let n = v.len();
    if n == 2 && v[0] == '-' && v[1] == '-' {
        assert(a@ == seq!['-', '-']);
        return Token::Separator;
    }
    if n >= 2 && v[0] == '-' && v[1] == '-' {
        proof {
            assert(a@ != seq!['-', '-']) by {
                if a@ == seq!['-', '-'] {
                    assert(a@.len() == 2);
                }
            }
        }
        let ghost rest = a@.subrange(2, a@.len() as int);
        let mut k: usize = 2;
        while k < n && v[k] != '='
            invariant
                2 <= k <= n,
                n == v@.len(),
                v@ == a@,
                rest == a@.subrange(2, a@.len() as int),
                forall|m: int| 0 <= m < k - 2 ==> !(#[trigger] is_eq_sign(rest)(m)),
            decreases n - k,
        {
            k = k + 1;
        }
        proof {
            if k < n {
                crate::model::lemma_first_where_at(0, rest.len() as int, is_eq_sign(rest), k - 2);
            } else {
                crate::model::lemma_first_where_none(0, rest.len() as int, is_eq_sign(rest));
            }
        }
        let name = string_of_range(&v, 2, k);
        if k < n {
            let value = string_of_range(&v, k + 1, n);
            proof {
                assert(name@ == rest.subrange(0, k - 2));
                assert(value@ == rest.subrange(k - 2 + 1, rest.len() as int));
            }
            return Token::LongFlag { name, value: Some(value) };
        }
        return Token::LongFlag { name, value: None };
    }
    if n >= 2 && v[0] == '-' {
        proof {
            assert(a@ != seq!['-', '-']) by {
                if a@ == seq!['-', '-'] {
                    assert(a@[1] == '-');
                }
            }
        }
        let value = if n > 2 {
            Some(string_of_range(&v, 2, n))
        } else {
            None
        };
        return Token::ShortFlag { name: v[1], value };
    }
    proof {
        assert(a@ != seq!['-', '-']) by {
            if a@ == seq!['-', '-'] {
                assert(a@[1] == '-');
            }
        }
    }
    Token::Word(String::from_str(a))
}

/// Split an argument vector into tokens.
pub fn tokenize(argv: &[&str]) -> (r: Vec<Token>)
    ensures
        token_views(r@) == tokenize_spec(arg_views(argv@)),
{
    let ghost args = arg_views(argv@);
    let mut out: Vec<Token> = Vec::new();
    let mut seen = false;
    let mut i: usize = 0;
    while i < argv.len()
        invariant
            i <= argv@.len(),
            args == arg_views(argv@),
            seen == after_separator(args, i as int),
            token_views(out@) == tokenize_spec(args).subrange(0, i as int),
        decreases argv.len() - i,
    {
        let a: &str = argv[i];
        let t = if seen {
            Token::Word(String::from_str(a))
        } else {
            classify(a)
        };
        let ghost is_sep = t@ == TokenView::Separator;
        proof {
            assert(args[i as int] == a@);
            assert(tokenize_spec(args)[i as int] == t@);
        }
        if !seen {
            match &t {
                Token::Separator => {
                    seen = true;
                },
                _ => {},
            }
        }
        let ghost tv = t@;
        let ghost prev = out@;
        out.push(t);
        proof {
            assert(out@ == prev.push(t));
            assert(token_views(out@) =~= token_views(prev).push(tv));
            assert(tokenize_spec(args).subrange(0, i + 1) =~= tokenize_spec(args).subrange(
                0,
                i as int,
            ).push(tv));
            if !after_separator(args, i as int) {
                if args[i as int] == seq!['-', '-'] {
                    assert(after_separator(args, i + 1));
                } else {
                    assert forall|j: int| 0 <= j < i + 1 implies args[j] != seq!['-', '-'] by {
                        if j < i {
                        }
                    }
                }
            } else {
                let j = choose|j: int| 0 <= j < i && args[j] == seq!['-', '-'];
                assert(0 <= j < i + 1 && args[j] == seq!['-', '-']);
            }
        }
        i = i + 1;
    }
    proof {
        assert(tokenize_spec(args).subrange(0, argv@.len() as int) == tokenize_spec(args));
    }
    out
}

/// Every argument that follows a `--` argument is a plain word, whatever it
/// starts with; an argument before any `--` is read as a flag, a separator
/// or a word by its own form; and there is one token per argument.
pub proof fn lemma_words_after_separator(argv: Seq<Seq<char>>, i: int)
    requires
        0 <= i < argv.len(),
    ensures
        tokenize_spec(argv).len() == argv.len(),
        (exists|j: int| 0 <= j < i && argv[j] == seq!['-', '-']) ==> tokenize_spec(argv)[i]
            == TokenView::Word(argv[i]),
        (forall|j: int| 0 <= j < i ==> argv[j] != seq!['-', '-']) ==> tokenize_spec(argv)[i]
            == token_of(argv[i]),
{
}

/// An argument `--name` seen before any `--` is the long flag `name`, and
/// `-c` the short flag `c`.
pub proof fn lemma_flag_forms(a: Seq<char>)
    ensures
        a.len() > 2 && a[0] == '-' && a[1] == '-' && !a.contains('=') ==> token_of(a)
            == TokenView::LongFlag(a.subrange(2, a.len() as int), None),
        a.len() == 2 && a[0] == '-' && a[1] != '-' ==> token_of(a) == TokenView::ShortFlag(
            a[1],
            None,
        ),
        (a.len() == 0 || a[0] != '-' || a.len() == 1) ==> token_of(a) == TokenView::Word(a),
{
    if a.len() > 2 && a[0] == '-' && a[1] == '-' && !a.contains('=') {
        let rest = a.subrange(2, a.len() as int);
        assert(a != seq!['-', '-']);
        lemma_first_where_spec(0, rest.len() as int, is_eq_sign(rest));
        assert forall|k: int| 0 <= k < rest.len() implies !#[trigger] is_eq_sign(rest)(k) by {
            assert(rest[k] == a[k + 2]);
        }
    }
    if a.len() == 2 && a[0] == '-' && a[1] != '-' {
        assert(a != seq!['-', '-']);
    }
}

} // verus!
