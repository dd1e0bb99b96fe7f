//! The spec language: its typed representation and its parser.
//!
//! A spec arrives as a JSON value.  An object's `"$"` key names the scope
//! selector; every other key becomes a field, a trailing `?` marking it
//! optional.  A field's string value is either a quoted string literal, a
//! selector with `|`-separated pipe commands, or a `||`-separated fallback
//! chain of such selectors; numbers, booleans and `null` pass through as
//! literals; a non-empty array nests an array spec, an object a nested
//! object spec.

use vstd::prelude::*;

use crate::errors::Error;
use crate::json::JsonVal;
use crate::json::JsonValue;
use crate::strutil::contains_double;
use crate::strutil::has_double;
use crate::strutil::parse_usize_str;
use crate::strutil::split_char;
use crate::strutil::split_on_char;
use crate::strutil::split_on_double;
use crate::strutil::split_double;
use crate::strutil::str_eq;
use crate::strutil::str_starts_with;
use crate::strutil::strs_view;
use crate::strutil::substr_chars;
use crate::strutil::trim;
use crate::strutil::trimmed;
use crate::strutil::uint_literal;

verus! {

/// A CSS selector string.
#[derive(Debug, Clone, PartialEq)]
pub struct SelectorRef(String);

impl SelectorRef {
    /// The selector text.
    pub closed spec fn view(&self) -> Seq<char> {
        self.0@
    }

    /// Build a selector reference from its text.
    pub fn from_text(text: String) -> (r: SelectorRef)
        ensures
            r@ == text@,
    {
        SelectorRef(text)
    }

    /// Get the selector string.
    pub fn as_str(&self) -> (r: &str)
        ensures
            r@ == self@,
    {
        self.0.as_str()
    }

    /// Check if this is a self-reference selector ($).
    pub fn is_self_ref(&self) -> (r: bool)
        ensures
            r == (self@ == "$"@),
    {
        str_eq(self.0.as_str(), "$")
    }
}

/// Pipe transformation command, applied in order to an extracted value.
#[derive(Debug, Clone, PartialEq)]
pub enum PipeCommand {
    Attr(String),
    Void,
    Trim,
    Lower,
    Upper,
    Substr(usize, Option<usize>),
    ParseAsNumber,
    ParseAsInt,
    ParseAsFloat,
    Regex(String),
}

impl PipeCommand {
    /// Source pipes pick the raw value; they may stand only first in a
    /// pipe list.
    pub open spec fn is_source(&self) -> bool {
        self matches PipeCommand::Attr(_) || self matches PipeCommand::Void
    }
}

/// A literal value in a spec.  A `Number` holds the decimal text of the
/// JSON number it came from.
#[derive(Debug, Clone, PartialEq)]
pub enum LiteralValue {
    Text(String),
    Number(String),
    Int(i64),
    Boolean(bool),
    Null,
}

/// Is this token one of the pipe keywords that take no argument?
pub open spec fn is_keyword_token(tok: Seq<char>) -> bool {
    tok == "trim"@ || tok == "text"@ || tok == "lower"@ || tok == "upper"@ || tok == "void"@
        || tok == "parseAs:number"@ || tok == "parseAs:int"@ || tok == "parseAs:float"@
}

/// Does the token start with the given prefix?
pub open spec fn has_prefix(tok: Seq<char>, prefix: Seq<char>) -> bool {
    tok.len() >= prefix.len() && tok.take(prefix.len() as int) == prefix
}

/// The argument text after a prefix.
pub open spec fn after_prefix(tok: Seq<char>, prefix: Seq<char>) -> Seq<char> {
    tok.skip(prefix.len() as int)
}

/// Are the substring arguments well formed: a start position, optionally
/// followed by an end position, both decimal numbers that fit a `usize`?
/// Any further `:`-separated parts are ignored.
pub open spec fn substr_args_ok(rest: Seq<char>) -> bool {
    let parts = split_char(rest, ':');
    &&& (match uint_literal(parts[0]) {
        Option::Some(n) => n <= usize::MAX,
        Option::None => false,
    })
    &&& (parts.len() > 1 ==> match uint_literal(parts[1]) {
        Option::Some(n) => n <= usize::MAX,
        Option::None => false,
    })
}

/// The substring argument that fails to parse: the start part, or else
/// the end part.
pub open spec fn substr_bad_part(rest: Seq<char>) -> Seq<char> {
    let parts = split_char(rest, ':');
    if !(uint_literal(parts[0]) matches Option::Some(n) && n <= usize::MAX) {
        parts[0]
    } else {
        parts[1]
    }
}

/// Is this token a valid pipe command?
pub open spec fn pipe_token_ok(tok: Seq<char>) -> bool {
    ||| is_keyword_token(tok)
    ||| has_prefix(tok, "attr:"@)
    ||| (has_prefix(tok, "substr:"@) && substr_args_ok(after_prefix(tok, "substr:"@)))
    ||| has_prefix(tok, "regex:"@)
}

/// Which pipe command a token denotes.
pub open spec fn is_pipe_of(p: PipeCommand, tok: Seq<char>) -> bool {
    match p {
        PipeCommand::Trim => tok == "trim"@ || tok == "text"@,
        PipeCommand::Lower => tok == "lower"@,
        PipeCommand::Upper => tok == "upper"@,
        PipeCommand::Void => tok == "void"@,
        PipeCommand::ParseAsNumber => tok == "parseAs:number"@,
        PipeCommand::ParseAsInt => tok == "parseAs:int"@,
        PipeCommand::ParseAsFloat => tok == "parseAs:float"@,
        PipeCommand::Attr(name) => !is_keyword_token(tok) && has_prefix(tok, "attr:"@) && name@
            == after_prefix(tok, "attr:"@),
        PipeCommand::Substr(start, end) => {
            let parts = split_char(after_prefix(tok, "substr:"@), ':');
            &&& !is_keyword_token(tok)
            &&& has_prefix(tok, "substr:"@)
            &&& uint_literal(parts[0]) == Option::Some(start as int)
            &&& (match end {
                Option::Some(e) => parts.len() > 1 && uint_literal(parts[1]) == Option::Some(
                    e as int,
                ),
                Option::None => parts.len() <= 1,
            })
        },
        PipeCommand::Regex(pattern) => !is_keyword_token(tok) && !has_prefix(tok, "attr:"@)
            && !has_prefix(tok, "substr:"@) && has_prefix(tok, "regex:"@) && pattern@
            == after_prefix(tok, "regex:"@),
    }
}

/// Parse one pipe token.
pub fn parse_pipe_command(s: &str) -> (r: Result<PipeCommand, Error>)
    ensures
        (r is Ok) == pipe_token_ok(s@),
        r matches Ok(p) ==> is_pipe_of(p, s@),
        r matches Err(e) ==> e matches Error::SpecParse(t) && t@ == (
        if has_prefix(s@, "substr:"@) {
            substr_bad_part(after_prefix(s@, "substr:"@))
        } else {
            s@
        }),
{
    if str_eq(s, "trim") || str_eq(s, "text") {
        return Result::Ok(PipeCommand::Trim);
    }
    if str_eq(s, "lower") {
        return Result::Ok(PipeCommand::Lower);
    }
    if str_eq(s, "upper") {
        return Result::Ok(PipeCommand::Upper);
    }
    if str_eq(s, "void") {
        return Result::Ok(PipeCommand::Void);
    }
    if str_eq(s, "parseAs:number") {
        return Result::Ok(PipeCommand::ParseAsNumber);
    }
    if str_eq(s, "parseAs:int") {
        return Result::Ok(PipeCommand::ParseAsInt);
    }
    if str_eq(s, "parseAs:float") {
        return Result::Ok(PipeCommand::ParseAsFloat);
    }
    if str_starts_with(s, "attr:") {
        proof {
            reveal_strlit("attr:");
        }
        let name = substr_chars(s, 5, Option::None);
        proof {
            assert(name@ =~= after_prefix(s@, "attr:"@));
        }
        return Result::Ok(PipeCommand::Attr(name.to_owned()));
    }
    if str_starts_with(s, "substr:") {
        proof {
            reveal_strlit("substr:");
            reveal_strlit("attr:");
            reveal_strlit("regex:");
        }
        let rest = substr_chars(s, 7, Option::None);
        proof {
            assert(rest@ =~= after_prefix(s@, "substr:"@));
            assert(!has_prefix(s@, "regex:"@)) by {
                if has_prefix(s@, "regex:"@) {
                    assert(s@.take(6)[0] == s@[0]);
                    assert(s@.take(7)[0] == s@[0]);
                }
            }
            assert(!has_prefix(s@, "attr:"@)) by {
                if has_prefix(s@, "attr:"@) {
                    assert(s@.take(5)[0] == s@[0]);
                    assert(s@.take(7)[0] == s@[0]);
                }
            }
        }
        return parse_substr_command(rest);
    }
    if str_starts_with(s, "regex:") {
        proof {
            reveal_strlit("regex:");
        }
        let pattern = substr_chars(s, 6, Option::None);
        proof {
            assert(pattern@ =~= after_prefix(s@, "regex:"@));
        }
        return Result::Ok(PipeCommand::Regex(pattern.to_owned()));
    }
    Result::Err(Error::SpecParse(s.to_owned()))
}

/// Parse the arguments of a `substr:` token.
fn parse_substr_command(rest: &str) -> (r: Result<PipeCommand, Error>)
    ensures
        (r is Ok) == substr_args_ok(rest@),
        r matches Ok(p) ==> (p matches PipeCommand::Substr(start, end) && {
            let parts = split_char(rest@, ':');
            &&& uint_literal(parts[0]) == Option::Some(start as int)
            &&& (match end {
                Option::Some(e) => parts.len() > 1 && uint_literal(parts[1]) == Option::Some(
                    e as int,
                ),
                Option::None => parts.len() <= 1,
            })
        }),
        r matches Err(e) ==> e matches Error::SpecParse(t) && t@ == substr_bad_part(rest@),
{
    let parts = split_on_char(rest, ':');
    proof {
        crate::strutil::lemma_split_char_len(rest@, ':');
        assert(strs_view(parts@)[0] == parts@[0]@);
    }
    let start = match parse_usize_str(parts[0].as_str()) {
        Option::Some(v) => v,
        Option::None => {
            return Result::Err(Error::SpecParse(parts[0].clone()));
        },
    };
    let end = if parts.len() > 1 {
        proof {
            assert(strs_view(parts@)[1] == parts@[1]@);
        }
        match parse_usize_str(parts[1].as_str()) {
            Option::Some(v) => Option::Some(v),
            Option::None => {
                return Result::Err(Error::SpecParse(parts[1].clone()));
            },
        }
    } else {
        Option::None
    };
    Result::Ok(PipeCommand::Substr(start, end))
}

/// The trimmed `|`-separated parts of a selector string.
pub open spec fn sel_parts(s: Seq<char>) -> Seq<Seq<char>> {
    split_char(trimmed(s), '|').map_values(|p: Seq<char>| trimmed(p))
}

/// Is the whole (trimmed) string the self-reference `$`?
pub open spec fn sel_is_dollar(s: Seq<char>) -> bool {
    trimmed(s) == "$"@
}

/// The base selector of a selector string: `$` for the self reference and
/// for a leading `attr:` token, else the first part.
pub open spec fn sel_base_of(s: Seq<char>) -> Seq<char> {
    if sel_is_dollar(s) {
        "$"@
    } else {
        let parts = sel_parts(s);
        if has_prefix(parts[0], "attr:"@) || parts[0] == "$"@ {
            "$"@
        } else {
            parts[0]
        }
    }
}

/// The non-empty pipe tokens of a selector string.  A leading `attr:`
/// token is itself a pipe; otherwise the first part is the base selector.
pub open spec fn sel_tokens(s: Seq<char>) -> Seq<Seq<char>> {
    if sel_is_dollar(s) {
        Seq::empty()
    } else {
        let parts = sel_parts(s);
        let from: int = if has_prefix(parts[0], "attr:"@) {
            0
        } else {
            1
        };
        parts.skip(from).filter(|t: Seq<char>| t.len() > 0)
    }
}

/// Does a token denote a source pipe (`attr:` or `void`)?
pub open spec fn tok_is_source(tok: Seq<char>) -> bool {
    tok == "void"@ || has_prefix(tok, "attr:"@)
}

/// Every token is a valid pipe command.
pub open spec fn tokens_ok(toks: Seq<Seq<char>>) -> bool {
    forall|i: int| 0 <= i < toks.len() ==> pipe_token_ok(#[trigger] toks[i])
}

/// Source pipes stand only first in the token list.
pub open spec fn tokens_src_ok(toks: Seq<Seq<char>>) -> bool {
    forall|i: int| 1 <= i < toks.len() ==> !tok_is_source(#[trigger] toks[i])
}

/// The parsed pipes correspond to the tokens, one by one.
pub open spec fn pipes_match(ps: Seq<PipeCommand>, toks: Seq<Seq<char>>) -> bool {
    ps.len() == toks.len() && forall|i: int|
        0 <= i < ps.len() ==> is_pipe_of(#[trigger] ps[i], toks[i])
}

/// A selector string parses exactly when its pipe tokens are valid and
/// no source pipe stands after the first position.
pub open spec fn sel_string_ok(s: Seq<char>) -> bool {
    tokens_ok(sel_tokens(s)) && tokens_src_ok(sel_tokens(s))
}

/// A parsed source pipe comes only from a source token.
proof fn lemma_pipe_source_token(p: PipeCommand, tok: Seq<char>)
    requires
        is_pipe_of(p, tok),
    ensures
        p.is_source() == tok_is_source(tok),
{
    reveal_strlit("trim");
    reveal_strlit("text");
    reveal_strlit("lower");
    reveal_strlit("upper");
    reveal_strlit("void");
    reveal_strlit("parseAs:number");
    reveal_strlit("parseAs:int");
    reveal_strlit("parseAs:float");
    reveal_strlit("attr:");
    reveal_strlit("substr:");
    reveal_strlit("regex:");
    match p {
        PipeCommand::Substr(_, _) => {
            assert(!tok_is_source(tok)) by {
                if has_prefix(tok, "attr:"@) {
                    assert(tok.take(5)[0] == tok[0]);
                    assert(tok.take(7)[0] == tok[0]);
                }
            }
        },
        PipeCommand::Attr(_) => {},
        PipeCommand::Void => {},
        PipeCommand::Trim => {
            assert(tok != "void"@) by {
                assert("trim"@[0] == 't');
                assert("text"@[0] == 't');
                assert("void"@[0] == 'v');
            }
            assert(!has_prefix(tok, "attr:"@));
        },
        PipeCommand::Lower => {
            assert(tok != "void"@);
            assert(!has_prefix(tok, "attr:"@)) by {
                if has_prefix(tok, "attr:"@) {
                    assert(tok.take(5) =~= tok);
                    assert("lower"@[0] == 'l');
                    assert("attr:"@[0] == 'a');
                }
            }
        },
        PipeCommand::Upper => {
            assert(tok != "void"@);
            assert(!has_prefix(tok, "attr:"@)) by {
                if has_prefix(tok, "attr:"@) {
                    assert(tok.take(5) =~= tok);
                    assert("upper"@[0] == 'u');
                    assert("attr:"@[0] == 'a');
                }
            }
        },
        PipeCommand::Regex(_) => {
            assert(tok != "void"@);
        },
        _ => {
            assert(tok != "void"@);
            assert(!has_prefix(tok, "attr:"@)) by {
                if has_prefix(tok, "attr:"@) {
                    assert(tok.take(5)[0] == tok[0]);
                    assert("parseAs:number"@[0] == 'p');
                    assert("parseAs:int"@[0] == 'p');
                    assert("parseAs:float"@[0] == 'p');
                    assert("attr:"@[0] == 'a');
                }
            }
        },
    }
}

/// Parse a selector string into its base selector and pipe commands.
#[verifier::loop_isolation(false)]
#[verifier::rlimit(50)]
pub fn parse_selector_string(s: &str) -> (r: Result<(String, Vec<PipeCommand>), Error>)
    ensures
        (r is Ok) == sel_string_ok(s@),
        r matches Ok(bp) ==> bp.0@ == sel_base_of(s@) && pipes_match(bp.1@, sel_tokens(s@)),
        r matches Err(e) ==> e is SpecParse,
{
    let t = trim(s);
    if str_eq(t, "$") {
        proof {
            assert(sel_tokens(s@) =~= Seq::<Seq<char>>::empty());
        }
        return Result::Ok(("$".to_owned(), Vec::new()));
    }
    let raw_parts = split_on_char(t, '|');
    let ghost parts_model = sel_parts(s@);
    let mut parts: Vec<String> = Vec::new();
    let mut pi: usize = 0;
    proof {
        assert(strs_view(raw_parts@).map_values(|p: Seq<char>| trimmed(p)) == parts_model);
        assert(strs_view(parts@) =~= parts_model.take(0));
    }
    while pi < raw_parts.len()
        invariant
            pi <= raw_parts.len(),
            parts_model.len() == raw_parts.len(),
            forall|j: int| 0 <= j < raw_parts.len() ==> parts_model[j] == trimmed(
                #[trigger] raw_parts@[j]@,
            ),
            strs_view(parts@) == parts_model.take(pi as int),
        decreases raw_parts.len() - pi,
    {
        let piece = trim(raw_parts[pi].as_str());
        parts.push(piece.to_owned());
        proof {
            assert(strs_view(parts@) =~= parts_model.take(pi + 1));
        }
        pi += 1;
    }
    proof {
        assert(parts_model.take(parts_model.len() as int) =~= parts_model);
        crate::strutil::lemma_split_char_len(t@, '|');
    }
    let attr_first = str_starts_with(parts[0].as_str(), "attr:");
    let base: String = if attr_first || str_eq(parts[0].as_str(), "$") {
        proof {
            assert(parts_model[0] == strs_view(parts@)[0]);
        }
        String::from_str("$")
    } else {
        proof {
            assert(parts_model[0] == strs_view(parts@)[0]);
        }
        parts[0].clone()
    };
    let from: usize = if attr_first {
        0
    } else {
        1
    };
    let ghost toks = sel_tokens(s@);
    let ghost tail = parts_model.skip(from as int);
    let mut pipes: Vec<PipeCommand> = Vec::new();
    let mut i: usize = from;
    proof {
        assert(toks == tail.filter(|t: Seq<char>| t.len() > 0));
        assert(tail.take(0) =~= Seq::<Seq<char>>::empty());
        assert(tail.take(0).filter(|t: Seq<char>| t.len() > 0) =~= Seq::<Seq<char>>::empty()) by {
            reveal(Seq::filter);
        }
    }
    while i < parts.len()
        invariant
            from <= i <= parts.len(),
            parts.len() == parts_model.len(),
            strs_view(parts@) == parts_model,
            tail == parts_model.skip(from as int),
            from <= parts.len(),
            tokens_ok(tail.take(i - from).filter(|t: Seq<char>| t.len() > 0)),
            pipes_match(pipes@, tail.take(i - from).filter(|t: Seq<char>| t.len() > 0)),
            tokens_src_ok(tail.take(i - from).filter(|t: Seq<char>| t.len() > 0)),
        decreases parts.len() - i,
    {
        let ghost prefix = tail.take(i - from);
        let ghost grown = tail.take(i - from + 1);
        proof {
            assert(grown.drop_last() =~= prefix);
            assert(grown.last() == tail[i - from]);
            assert(tail[i - from] == parts_model[i as int]);
            reveal(Seq::filter);
        }
        if !parts[i].as_str().is_empty() {
            match parse_pipe_command(parts[i].as_str()) {
                Result::Ok(p) => {
                    let is_src = matches!(p, PipeCommand::Attr(_)) || matches!(
                        p,
                        PipeCommand::Void,
                    );
                    proof {
                        lemma_pipe_source_token(p, parts_model[i as int]);
                    }
                    if is_src && pipes.len() > 0 {
                        proof {
                            let kept = grown.filter(|t: Seq<char>| t.len() > 0);
                            assert(kept =~= prefix.filter(|t: Seq<char>| t.len() > 0).push(
                                parts_model[i as int],
                            ));
                            assert(tail.take(tail.len() as int) =~= tail);
                            lemma_filter_take_contains(tail, i - from + 1, kept.len() - 1);
                            assert(toks[kept.len() - 1] == parts_model[i as int]);
                            assert(!tokens_src_ok(toks));
                        }
                        return Result::Err(Error::SpecParse(parts[i].clone()));
                    }
                    pipes.push(p);
                    proof {
                        assert(grown.filter(|t: Seq<char>| t.len() > 0) =~= prefix.filter(
                            |t: Seq<char>| t.len() > 0,
                        ).push(parts_model[i as int]));
                    }
                },
                Result::Err(e) => {
                    proof {
                        assert(grown.filter(|t: Seq<char>| t.len() > 0).last() == parts_model[
                            i as int]);
                        assert(!tokens_ok(toks)) by {
                            let kept = grown.filter(|t: Seq<char>| t.len() > 0);
                            assert(tail.take(tail.len() as int) =~= tail);
                            lemma_filter_take_contains(tail, i - from + 1, kept.len() - 1);
                        }
                    }
                    return Result::Err(e);
                },
            }
        } else {
            proof {
                assert(grown.filter(|t: Seq<char>| t.len() > 0) =~= prefix.filter(
                    |t: Seq<char>| t.len() > 0,
                ));
            }
        }
        i += 1;
    }
    proof {
        assert(tail.take(parts_model.len() - from) =~= tail);
    }
    Result::Ok((base, pipes))
}

/// The text inside a quoted string literal: the trimmed value with one
/// matching pair of `'` or `"` quotes around it; anything else is no
/// literal.
pub open spec fn literal_str_of(s: Seq<char>) -> Option<Seq<char>> {
    let t = trimmed(s);
    if t.len() >= 2 && ((t[0] == '\'' && t.last() == '\'') || (t[0] == '"' && t.last() == '"')) {
        Option::Some(t.subrange(1, t.len() - 1))
    } else {
        Option::None
    }
}

/// Recognize a quoted string literal.
fn parse_literal_string(s: &str) -> (r: Option<String>)
    ensures
        match r {
            Option::Some(inner) => literal_str_of(s@) == Option::Some(inner@),
            Option::None => literal_str_of(s@) is None,
        },
{
    let t = trim(s);
    let n = t.unicode_len();
    if n >= 2 {
        let first = t.get_char(0);
        let last = t.get_char(n - 1);
        if (first == '\'' && last == '\'') || (first == '"' && last == '"') {
            let inner = t.substring_char(1, n - 1);
            return Option::Some(inner.to_owned());
        }
    }
    Option::None
}

/// The `||`-separated parts of a fallback chain.
pub open spec fn fallback_parts(s: Seq<char>) -> Seq<Seq<char>> {
    split_double(trimmed(s), '|')
}

/// Is this string a fallback chain?
pub open spec fn is_fallback_str(s: Seq<char>) -> bool {
    has_double(trimmed(s), '|')
}

/// Every part of the fallback chain is a valid selector string.
pub open spec fn fallback_ok(s: Seq<char>) -> bool {
    forall|i: int| 0 <= i < fallback_parts(s).len() ==> sel_string_ok(#[trigger] fallback_parts(
        s,
    )[i])
}

/// The parsed alternatives correspond to the parts of the chain, in
/// order.
pub open spec fn fallback_matches(items: Seq<(SelectorRef, Vec<PipeCommand>)>, s: Seq<char>) -> bool {
    let parts = fallback_parts(s);
    &&& items.len() == parts.len()
    &&& forall|i: int|
        0 <= i < items.len() ==> (#[trigger] items[i]).0@ == sel_base_of(parts[i]) && pipes_match(
            items[i].1@,
            sel_tokens(parts[i]),
        )
}

/// An element of the filter of a prefix stays an element of the filter of
/// the whole, at the same position.
proof fn lemma_filter_take_contains(s: Seq<Seq<char>>, k: int, j: int)
    requires
        0 <= k <= s.len(),
        0 <= j < s.take(k).filter(|t: Seq<char>| t.len() > 0).len(),
    ensures
        s.filter(|t: Seq<char>| t.len() > 0).len() > j,
        s.filter(|t: Seq<char>| t.len() > 0)[j] == s.take(k).filter(|t: Seq<char>| t.len() > 0)[j],
    decreases s.len() - k,
{
    reveal(Seq::filter);
    if k < s.len() {
        let bigger = s.take(k + 1);
        assert(bigger.drop_last() =~= s.take(k));
        if (bigger.last().len() > 0) {
            assert(bigger.filter(|t: Seq<char>| t.len() > 0) == s.take(k).filter(
                |t: Seq<char>| t.len() > 0,
            ).push(bigger.last()));
        }
        lemma_filter_take_contains(s, k + 1, j);
    } else {
        assert(s.take(k) =~= s);
    }
}

/// A field specification: how one field's value is obtained.
#[derive(Debug, PartialEq)]
pub enum FieldSpec {
    /// CSS selector with pipes.
    Selector(SelectorRef, Vec<PipeCommand>),
    /// Fallback alternatives, tried in order until one yields a result.
    FallbackSelector(Vec<(SelectorRef, Vec<PipeCommand>)>),
    /// Nested object.
    Nested(ObjectSpec),
    /// Nested array.
    NestedArray(ArraySpec),
    /// Literal value.
    Literal(LiteralValue),
}

/// A field with its optional flag; optional fields vanish from the
/// output when their value is `null`.
#[derive(Debug, PartialEq)]
pub struct Field {
    pub kind: FieldSpec,
    pub optional: bool,
}

/// An object spec: a scope selector and named fields.
#[derive(Debug, PartialEq)]
pub struct ObjectSpec {
    pub scope_selector: Option<SelectorRef>,
    pub fields: Vec<(String, Field)>,
}

/// An array spec: its item spec's scope selector picks the elements.
#[derive(Debug, PartialEq)]
pub struct ArraySpec {
    pub item_spec: ObjectSpec,
}

/// A whole extraction specification.
#[derive(Debug, PartialEq)]
pub enum Spec {
    /// Extract a single object.
    Object(ObjectSpec),
    /// Extract an array of objects.
    Array(ArraySpec),
    /// A literal value.
    Literal(LiteralValue),
}

/// Parse one field string: a fallback chain when it holds `||`, else a
/// single selector with pipes.
#[verifier::loop_isolation(false)]
pub fn parse_selector_or_fallback(s: &str) -> (r: Result<FieldSpec, Error>)
    ensures
        (r is Ok) == (if is_fallback_str(s@) {
            fallback_ok(s@)
        } else {
            sel_string_ok(s@)
        }),
        r matches Ok(f) ==> (if is_fallback_str(s@) {
            f matches FieldSpec::FallbackSelector(items) && fallback_matches(items@, s@)
        } else {
            f matches FieldSpec::Selector(sr, ps) && sr@ == sel_base_of(s@) && pipes_match(
                ps@,
                sel_tokens(s@),
            )
        }),
        r matches Err(e) ==> e is SpecParse,
{
    let t = trim(s);
    if contains_double(t, '|') {
        let parts = split_on_double(t, '|');
        let ghost pmodel = fallback_parts(s@);
        let mut items: Vec<(SelectorRef, Vec<PipeCommand>)> = Vec::new();
        let mut i: usize = 0;
        proof {
            assert(strs_view(parts@) == pmodel);
        }
        while i < parts.len()
            invariant
                i <= parts.len(),
                parts.len() == pmodel.len(),
                forall|j: int| 0 <= j < parts.len() ==> (#[trigger] parts@[j])@ == pmodel[j],
                items.len() == i,
                forall|j: int|
                    0 <= j < i ==> sel_string_ok(#[trigger] pmodel[j]) && items@[j].0@
                        == sel_base_of(pmodel[j]) && pipes_match(items@[j].1@, sel_tokens(
                        pmodel[j],
                    )),
            decreases parts.len() - i,
        {
            proof {
                assert(strs_view(parts@)[i as int] == parts@[i as int]@);
            }
            match parse_selector_string(parts[i].as_str()) {
                Result::Ok((base, pipes)) => {
                    items.push((SelectorRef::from_text(base), pipes));
                },
                Result::Err(e) => {
                    return Result::Err(e);
                },
            }
            i += 1;
        }
        Result::Ok(FieldSpec::FallbackSelector(items))
    } else {
        match parse_selector_string(t) {
            Result::Ok((base, pipes)) => {
                proof {
                    lemma_trim_stable(s@);
                }
                Result::Ok(FieldSpec::Selector(SelectorRef::from_text(base), pipes))
            },
            Result::Err(e) => {
                proof {
                    lemma_trim_stable(s@);
                }
                Result::Err(e)
            },
        }
    }
}

/// Selector parsing sees through outer whitespace: the trimmed string
/// parses as the original does.
proof fn lemma_trim_stable(s: Seq<char>)
    ensures
        sel_parts(trimmed(s)) == sel_parts(s),
        sel_is_dollar(trimmed(s)) == sel_is_dollar(s),
        sel_base_of(trimmed(s)) == sel_base_of(s),
        sel_tokens(trimmed(s)) == sel_tokens(s),
        sel_string_ok(trimmed(s)) == sel_string_ok(s),
{
    lemma_trimmed_idempotent(s);
}

/// Trimming twice is trimming once.
proof fn lemma_trimmed_idempotent(s: Seq<char>)
    ensures
        trimmed(trimmed(s)) == trimmed(s),
    decreases s.len(),
{
    if s.len() > 0 {
        if crate::strutil::is_ws(s[0]) {
            lemma_trimmed_idempotent(s.skip(1));
        } else if crate::strutil::is_ws(s.last()) {
            lemma_trimmed_idempotent(s.drop_last());
        }
    }
}

/// The output key of a spec key: a trailing `?` is stripped.
pub open spec fn stripped_key(k: Seq<char>) -> Seq<char> {
    if k.len() > 0 && k.last() == '?' {
        k.drop_last()
    } else {
        k
    }
}

/// Does a spec key mark its field optional?
pub open spec fn key_optional(k: Seq<char>) -> bool {
    k.len() > 0 && k.last() == '?'
}

/// Field keys are pairwise distinct.
pub open spec fn fields_unique(fs: Seq<(String, Field)>) -> bool {
    forall|j1: int, j2: int|
        0 <= j1 < j2 < fs.len() ==> (#[trigger] fs[j1]).0@ != (#[trigger] fs[j2]).0@
}

/// Does one spec entry give rise to this parsed field?
pub open spec fn entry_field_matches(entry: (Seq<char>, JsonVal), fld: (String, Field)) -> bool
    decreases entry.1, 2int,
{
    &&& entry.0 != "$"@
    &&& fld.0@ == stripped_key(entry.0)
    &&& fld.1.optional == key_optional(entry.0)
    &&& field_matches(fld.1.kind, entry.1)
}

/// Some source entry gives rise to this parsed field.
pub open spec fn entry_exists_for(
    entries: Seq<(Seq<char>, JsonVal)>,
    fld: (String, Field),
) -> bool
    decreases entries, 3int, 0int,
{
    exists|i: int| 0 <= i < entries.len() && entry_field_matches(#[trigger] entries[i], fld)
}

/// Does this parsed object spec correspond to the JSON object `v`?
/// Scope comes from a `"$"` key with a string value; every other entry
/// becomes the field under its stripped key, and no field is invented.
pub open spec fn object_matches(o: ObjectSpec, v: JsonVal) -> bool
    decreases v, 0int, 0int,
{
    &&& v is Obj
    &&& {
        let entries = v->Obj_0;
        &&& match o.scope_selector {
            Option::Some(sr) => exists|i: int|
                0 <= i < entries.len() && (#[trigger] entries[i]).0 == "$"@ && entries[i].1 is Text
                    && sr@ == entries[i].1->Text_0,
            Option::None => forall|i: int|
                0 <= i < entries.len() ==> !((#[trigger] entries[i]).0 == "$"@ && entries[i].1
                    is Text),
        }
        &&& fields_unique(o.fields@)
        &&& forall|j: int|
            0 <= j < o.fields@.len() ==> entry_exists_for(entries, #[trigger] o.fields@[j])
        &&& forall|i: int|
            0 <= i < entries.len() && (#[trigger] entries[i]).0 != "$"@ ==> exists|j: int|
                0 <= j < o.fields@.len() && (#[trigger] o.fields@[j]).0@ == stripped_key(
                    entries[i].0,
                )
    }
}

/// Does this parsed field spec correspond to the JSON value `v`?
pub open spec fn field_matches(f: FieldSpec, v: JsonVal) -> bool
    decreases v, 1int, field_height(f),
{
    match v {
        JsonVal::Text(s) => match literal_str_of(s) {
            Option::Some(inner) => f matches FieldSpec::Literal(lit) && lit matches
                LiteralValue::Text(t) && t@ == inner,
            Option::None => if is_fallback_str(s) {
                f matches FieldSpec::FallbackSelector(items) && fallback_matches(items@, s)
            } else {
                f matches FieldSpec::Selector(sr, ps) && sr@ == sel_base_of(s) && pipes_match(
                    ps@,
                    sel_tokens(s),
                )
            },
        },
        JsonVal::Num(x) => f matches FieldSpec::Literal(lit) && lit matches LiteralValue::Number(t)
            && t@ == x,
        JsonVal::Int(x) => f matches FieldSpec::Literal(lit) && lit matches LiteralValue::Int(y)
            && y == x,
        JsonVal::Bool(b) => f matches FieldSpec::Literal(lit) && lit matches LiteralValue::Boolean(
            c,
        ) && c == b,
        JsonVal::Null => f matches FieldSpec::Literal(lit) && lit is Null,
        JsonVal::Arr(items) => if items.len() > 0 {
            f matches FieldSpec::NestedArray(a) && object_matches(a.item_spec, items[0])
        } else {
            f matches FieldSpec::Literal(lit) && lit is Null
        },
        JsonVal::Obj(_) => f matches FieldSpec::Nested(o) && object_matches(o, v),
    }
}

/// A structural height for field specs, used only for termination.
pub open spec fn field_height(f: FieldSpec) -> int {
    match f {
        FieldSpec::Nested(_) => 1,
        _ => 0,
    }
}

/// Does the JSON value parse as an object spec?
pub open spec fn object_parses(v: JsonVal) -> bool
    decreases v, 0int,
{
    &&& v is Obj
    &&& {
        let entries = v->Obj_0;
        forall|i: int|
            0 <= i < entries.len() && (#[trigger] entries[i]).0 != "$"@ ==> field_parses(
                entries[i].1,
            )
    }
}

/// Does the JSON value parse as a field spec?
pub open spec fn field_parses(v: JsonVal) -> bool
    decreases v, 1int,
{
    match v {
        JsonVal::Text(s) => literal_str_of(s) is Some || (if is_fallback_str(s) {
            fallback_ok(s)
        } else {
            sel_string_ok(s)
        }),
        JsonVal::Arr(items) => items.len() == 0 || object_parses(items[0]),
        JsonVal::Obj(_) => object_parses(v),
        _ => true,
    }
}

/// Does the JSON value parse as a whole spec?
pub open spec fn spec_parses(v: JsonVal) -> bool {
    match v {
        JsonVal::Arr(items) => items.len() == 0 || object_parses(items[0]),
        JsonVal::Obj(_) => object_parses(v),
        _ => true,
    }
}

/// Does this parsed spec correspond to the JSON value `v`?  A non-empty
/// array wraps its first element's object spec; an object parses
/// directly; anything else gives the empty object spec.
pub open spec fn spec_matches(sp: Spec, v: JsonVal) -> bool {
    match v {
        JsonVal::Arr(items) => if items.len() > 0 {
            sp matches Spec::Array(a) && object_matches(a.item_spec, items[0])
        } else {
            sp matches Spec::Object(o) && o.scope_selector is None && o.fields@.len() == 0
        },
        JsonVal::Obj(_) => sp matches Spec::Object(o) && object_matches(o, v),
        _ => sp matches Spec::Object(o) && o.scope_selector is None && o.fields@.len() == 0,
    }
}

impl Spec {
    /// Build a spec from a JSON value: a non-empty array becomes an
    /// array spec from its first element, an object an object spec, and
    /// anything else the empty object spec.
    pub fn from_json(value: &JsonValue) -> (r: Result<Spec, Error>)
        ensures
            (r is Ok) == spec_parses(value@),
            r matches Ok(sp) ==> spec_matches(sp, value@),
            r matches Err(e) ==> e is SpecParse,
    {
        match value {
            JsonValue::Arr(items) => {
                if items.len() > 0 {
                    proof {
                        crate::json::lemma_items_view(items@);
                    }
                    match parse_object_spec(&items[0]) {
                        Result::Ok(item_spec) => Result::Ok(Spec::Array(ArraySpec { item_spec })),
                        Result::Err(e) => Result::Err(e),
                    }
                } else {
                    Result::Ok(
                        Spec::Object(ObjectSpec { scope_selector: Option::None, fields: Vec::new() }),
                    )
                }
            },
            JsonValue::Obj(_) => {
                match parse_object_spec(value) {
                    Result::Ok(o) => Result::Ok(Spec::Object(o)),
                    Result::Err(e) => Result::Err(e),
                }
            },
            _ => Result::Ok(
                Spec::Object(ObjectSpec { scope_selector: Option::None, fields: Vec::new() }),
            ),
        }
    }
}

/// The pieces that make a parsed object spec correspond to its source
/// object.
proof fn lemma_object_matches_intro(o: ObjectSpec, v: JsonVal, entries: Seq<(Seq<char>, JsonVal)>)
    requires
        v == JsonVal::Obj(entries),
        fields_unique(o.fields@),
        match o.scope_selector {
            Option::Some(sr) => exists|i: int|
                0 <= i < entries.len() && (#[trigger] entries[i]).0 == "$"@ && entries[i].1 is Text
                    && sr@ == entries[i].1->Text_0,
            Option::None => forall|i: int|
                0 <= i < entries.len() ==> !((#[trigger] entries[i]).0 == "$"@ && entries[i].1
                    is Text),
        },
        forall|j: int|
            0 <= j < o.fields@.len() ==> entry_exists_for(entries, #[trigger] o.fields@[j]),
        forall|i: int|
            0 <= i < entries.len() && (#[trigger] entries[i]).0 != "$"@ ==> exists|j: int|
                0 <= j < o.fields@.len() && (#[trigger] o.fields@[j]).0@ == stripped_key(
                    entries[i].0,
                ),
    ensures
        object_matches(o, v),
{
    reveal_with_fuel(object_matches, 2);
    assert(v is Obj);
    assert(v->Obj_0 == entries);
}

/// Parse a JSON object into an object spec.  A later entry under the
/// same stripped key replaces the earlier one, as a map insert would.
#[verifier::loop_isolation(false)]
#[verifier::rlimit(100)]
#[verifier::spinoff_prover]
pub fn parse_object_spec(value: &JsonValue) -> (r: Result<ObjectSpec, Error>)
    ensures
        (r is Ok) == object_parses(value@),
        r matches Ok(o) ==> object_matches(o, value@),
        r matches Err(e) ==> e is SpecParse,
    decreases value@, 0int,
{
    let entries = match value {
        JsonValue::Obj(entries) => entries,
        _ => {
            return Result::Err(Error::SpecParse(String::from_str("expected an object")));
        },
    };
    let ghost emodel = crate::json::fields_view(entries@);
    proof {
        crate::json::lemma_fields_view(entries@);
        assert(value@ == JsonVal::Obj(emodel));
    }
    let mut scope_selector: Option<SelectorRef> = Option::None;
    let mut fields: Vec<(String, Field)> = Vec::new();
    let mut idx: usize = 0;
    while idx < entries.len()
        invariant
            idx <= entries.len(),
            emodel.len() == entries@.len(),
            fields_unique(fields@),
            match scope_selector {
                Option::Some(sr) => exists|i: int|
                    0 <= i < idx && (#[trigger] emodel[i]).0 == "$"@ && emodel[i].1 is Text && sr@
                        == emodel[i].1->Text_0,
                Option::None => forall|i: int|
                    0 <= i < idx ==> !((#[trigger] emodel[i]).0 == "$"@ && emodel[i].1 is Text),
            },
            forall|j: int|
                0 <= j < fields@.len() ==> entry_exists_for(emodel.take(idx as int), #[trigger] fields@[j]),
            forall|i: int|
                0 <= i < idx && (#[trigger] emodel[i]).0 != "$"@ ==> exists|j: int|
                    0 <= j < fields@.len() && (#[trigger] fields@[j]).0@ == stripped_key(
                        emodel[i].0,
                    ),
            forall|i: int|
                0 <= i < idx && (#[trigger] emodel[i]).0 != "$"@ ==> field_parses(emodel[i].1),
        decreases entries.len() - idx,
    {
        proof {
            assert(emodel[idx as int] == (entries@[idx as int].0@, entries@[idx as int].1@));
        }
        let key = &entries[idx].0;
        if str_eq(key.as_str(), "$") {
            match &entries[idx].1 {
                JsonValue::Text(sel) => {
                    scope_selector = Option::Some(SelectorRef::from_text(sel.clone()));
                },
                _ => {},
            }
        } else {
            let klen = key.as_str().unicode_len();
            let optional = klen > 0 && key.as_str().get_char(klen - 1) == '?';
            let name: String = if optional {
                key.as_str().substring_char(0, klen - 1).to_owned()
            } else {
                key.clone()
            };
            proof {
                assert(name@ =~= stripped_key(emodel[idx as int].0));
                assert(optional == key_optional(emodel[idx as int].0));
                assert(decreases_to!(value@, 0int => emodel[idx as int].1, 1int)) by {
                    assert(value@ == JsonVal::Obj(emodel));
                    assert(decreases_to!(value@ => value@->Obj_0));
                    assert(decreases_to!(emodel => emodel[idx as int]));
                    assert(decreases_to!(emodel[idx as int] => emodel[idx as int].1));
                }
            }
            let kind = match parse_field_spec(&entries[idx].1) {
                Result::Ok(k) => k,
                Result::Err(e) => {
                    proof {
                        assert(!field_parses(emodel[idx as int].1));
                        assert(value@->Obj_0 == emodel);
                        if object_parses(value@) {
                            assert(field_parses(emodel[idx as int].1));
                        }
                        assert(!object_parses(value@));
                    }
                    return Result::Err(e);
                },
            };
            let fld = Field { kind, optional };
            let ghost gpair = (name, fld);
            let ghost before = fields@;
            proof {
                assert(entry_field_matches(emodel[idx as int], gpair));
            }
            insert_field(&mut fields, name, fld);
            proof {
                let prefix = emodel.take(idx as int);
                let grown_entries = emodel.take(idx + 1);
                assert(forall|i: int| 0 <= i < idx ==> #[trigger] grown_entries[i] == emodel[i]);
                assert(grown_entries[idx as int] == emodel[idx as int]);
                assert forall|j2: int| 0 <= j2 < fields@.len() implies entry_exists_for(
                    grown_entries,
                    #[trigger] fields@[j2],
                ) by {
                    let x = fields@[j2];
                    if x.0@ == gpair.0@ && x.1 == gpair.1 {
                        assert(entry_field_matches(grown_entries[idx as int], x));
                    } else {
                        assert(before.contains(x));
                        let oj = choose|oj: int| 0 <= oj < before.len() && before[oj] == x;
                        assert(entry_exists_for(prefix, x));
                        let src = choose|i: int|
                            0 <= i < prefix.len() && entry_field_matches(#[trigger] prefix[i], x);
                        assert(entry_field_matches(grown_entries[src], x));
                    }
                }
                assert forall|i2: int|
                    0 <= i2 < idx + 1 && (#[trigger] emodel[i2]).0 != "$"@ implies (
                exists|j2: int|
                    0 <= j2 < fields@.len() && (#[trigger] fields@[j2]).0@ == stripped_key(
                        emodel[i2].0,
                    )) by {
                    if i2 == idx {
                        assert(fields@.last().0@ == stripped_key(emodel[idx as int].0));
                        assert(fields@[fields@.len() - 1].0@ == stripped_key(emodel[i2].0));
                    } else {
                        let oj = choose|oj: int|
                            0 <= oj < before.len() && before[oj].0@ == stripped_key(emodel[i2].0);
                        assert(exists|j2: int|
                            0 <= j2 < fields@.len() && (#[trigger] fields@[j2]).0@ == before[oj].0@);
                    }
                }
            }
        }
        idx += 1;
    }
    let ghost gfields = fields@;
    let ghost gscope = scope_selector;
    let result = ObjectSpec { scope_selector, fields };
    proof {
        assert(result.fields@ == gfields && result.scope_selector == gscope);
        lemma_object_matches_intro(result, value@, emodel);
    }
    Result::Ok(result)
}

/// Parse one field value into a field spec.
#[verifier::loop_isolation(false)]
pub fn parse_field_spec(value: &JsonValue) -> (r: Result<FieldSpec, Error>)
    ensures
        (r is Ok) == field_parses(value@),
        r matches Ok(f) ==> field_matches(f, value@),
        r matches Err(e) ==> e is SpecParse,
    decreases value@, 1int,
{
    match value {
        JsonValue::Text(s) => {
            match parse_literal_string(s.as_str()) {
                Option::Some(inner) => Result::Ok(
                    FieldSpec::Literal(LiteralValue::Text(inner)),
                ),
                Option::None => parse_selector_or_fallback(s.as_str()),
            }
        },
        JsonValue::Num(x) => Result::Ok(FieldSpec::Literal(LiteralValue::Number(x.clone()))),
        JsonValue::Int(x) => Result::Ok(FieldSpec::Literal(LiteralValue::Int(*x))),
        JsonValue::Bool(b) => Result::Ok(FieldSpec::Literal(LiteralValue::Boolean(*b))),
        JsonValue::Null => Result::Ok(FieldSpec::Literal(LiteralValue::Null)),
        JsonValue::Arr(items) => {
            if items.len() > 0 {
                proof {
                    crate::json::lemma_items_view(items@);
                    let imodel = crate::json::items_view(items@);
                    assert(value@ == JsonVal::Arr(imodel));
                    assert(decreases_to!(value@ => value@->Arr_0));
                    assert(decreases_to!(imodel => imodel[0]));
                    assert(items@[0]@ == imodel[0]);
                }
                match parse_object_spec(&items[0]) {
                    Result::Ok(item_spec) => Result::Ok(
                        FieldSpec::NestedArray(ArraySpec { item_spec }),
                    ),
                    Result::Err(e) => Result::Err(e),
                }
            } else {
                Result::Ok(FieldSpec::Literal(LiteralValue::Null))
            }
        },
        JsonValue::Obj(_) => {
            match parse_object_spec(value) {
                Result::Ok(o) => Result::Ok(FieldSpec::Nested(o)),
                Result::Err(e) => Result::Err(e),
            }
        },
    }
}


/// Insert a field under its key, replacing an earlier field under the
/// same key, as a map insert would.
#[verifier::loop_isolation(false)]
fn insert_field(fields: &mut Vec<(String, Field)>, name: String, fld: Field)
    requires
        fields_unique(old(fields)@),
    ensures
        fields_unique(final(fields)@),
        final(fields)@.len() > 0,
        final(fields)@.last().0@ == name@ && final(fields)@.last().1 == fld,
        forall|j: int|
            0 <= j < final(fields)@.len() ==> ((#[trigger] final(fields)@[j]).0@ == name@
                && final(fields)@[j].1 == fld) || old(fields)@.contains(final(fields)@[j]),
        forall|j: int|
            0 <= j < old(fields)@.len() ==> exists|j2: int|
                0 <= j2 < final(fields)@.len() && (#[trigger] final(fields)@[j2]).0@ == (
                #[trigger] old(fields)@[j]).0@,
{
    let ghost before = fields@;
    let mut j: usize = 0;
    let mut found: Option<usize> = Option::None;
    while j < fields.len()
        invariant
            j <= fields.len(),
            fields@ == before,
            match found {
                Option::Some(p) => p < j && before[p as int].0@ == name@,
                Option::None => forall|j2: int| 0 <= j2 < j ==> (#[trigger] before[j2]).0@ != name@,
            },
        decreases fields.len() - j,
    {
        if found.is_none() && str_eq(fields[j].0.as_str(), name.as_str()) {
            found = Option::Some(j);
        }
        j += 1;
    }
    match found {
        Option::Some(pos) => {
            let _ = fields.remove(pos);
            fields.push((name, fld));
            proof {
                assert forall|a: int, b: int|
                    0 <= a < b < fields@.len() implies (#[trigger] fields@[a]).0@ != (
                #[trigger] fields@[b]).0@ by {
                    if b < fields@.len() - 1 {
                        let oa: int = if a < pos {
                            a
                        } else {
                            a + 1
                        };
                        let ob: int = if b < pos {
                            b
                        } else {
                            b + 1
                        };
                        assert(fields@[a] == before[oa]);
                        assert(fields@[b] == before[ob]);
                    } else {
                        let oa: int = if a < pos {
                            a
                        } else {
                            a + 1
                        };
                        assert(fields@[a] == before[oa]);
                        assert(oa != pos);
                        assert(before[oa].0@ != before[pos as int].0@);
                    }
                }
                assert forall|jj: int| 0 <= jj < fields@.len() implies ((
                #[trigger] fields@[jj]).0@ == name@ && fields@[jj].1 == fld) || before.contains(
                    fields@[jj],
                ) by {
                    if jj < fields@.len() - 1 {
                        let oj: int = if jj < pos {
                            jj
                        } else {
                            jj + 1
                        };
                        assert(fields@[jj] == before[oj]);
                    }
                }
                assert forall|jj: int| 0 <= jj < before.len() implies exists|j2: int|
                    0 <= j2 < fields@.len() && (#[trigger] fields@[j2]).0@ == (
                #[trigger] before[jj]).0@ by {
                    if jj == pos {
                        assert(fields@[fields@.len() - 1].0@ == before[jj].0@);
                    } else if jj < pos {
                        assert(fields@[jj].0@ == before[jj].0@);
                    } else {
                        assert(fields@[jj - 1] == before[jj]);
                    }
                }
            }
        },
        Option::None => {
            fields.push((name, fld));
            proof {
                assert forall|jj: int| 0 <= jj < before.len() implies exists|j2: int|
                    0 <= j2 < fields@.len() && (#[trigger] fields@[j2]).0@ == (
                #[trigger] before[jj]).0@ by {
                    assert(fields@[jj].0@ == before[jj].0@);
                }
            }
        },
    }
}

} // verus!
