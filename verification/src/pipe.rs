//! The pipe transform pipeline: applying transform commands, in order,
//! to an extracted value.
//!
//! A `null` input passes through every transform unchanged; any other
//! non-string input is a type mismatch.  Outside this module's trusted
//! wrappers (case folding, floating-point parsing, regex matching) every
//! transform is verified against an exact model.

use vstd::prelude::*;

use crate::dsl::PipeCommand;
use crate::errors::Error;
use crate::json::JsonVal;
use crate::json::JsonValue;
use crate::strutil::int_literal;
use crate::strutil::parse_i64_str;
use crate::strutil::substr_of;
use crate::strutil::trim;
use crate::strutil::trimmed;

verus! {

/// Compiled regex programs larger than this are refused, to block
/// pathological patterns.
pub const REGEX_SIZE_LIMIT: usize = 1000000;

/// The DFA size limit that goes with `REGEX_SIZE_LIMIT`.
pub const REGEX_DFA_SIZE_LIMIT: usize = 1000000;

/// What `str::to_lowercase` returns: a function of the characters alone.
pub uninterp spec fn lower_of(s: Seq<char>) -> Seq<char>;

/// What `str::to_uppercase` returns: a function of the characters alone.
pub uninterp spec fn upper_of(s: Seq<char>) -> Seq<char>;

/// Whether the regex engine accepts this pattern under the size limits
/// above: a function of the pattern text alone.
pub uninterp spec fn regex_ok(pattern: Seq<char>) -> bool;

/// What matching the pattern against the text yields: capture group 1
/// when the pattern has one, else the whole match, or nothing when the
/// pattern does not match.  A function of pattern and text alone.
pub uninterp spec fn regex_capture(pattern: Seq<char>, text: Seq<char>) -> Option<Seq<char>>;

/// Whether `f64::from_str` accepts this text: a function of the text
/// alone.
pub uninterp spec fn float_parses(s: Seq<char>) -> bool;

/// The decimal text of the finite double the text parses to, or nothing
/// when the double is not finite.  A function of the text alone.
pub uninterp spec fn float_repr_of(s: Seq<char>) -> Option<Seq<char>>;

/// Relies on `str::to_lowercase`: the result depends on the characters
/// alone.
#[verifier::external_body]
fn lowercase(s: &str) -> (r: String)
    ensures
        r@ == lower_of(s@),
{
    s.to_lowercase()
}

/// Relies on `str::to_uppercase`: the result depends on the characters
/// alone.
#[verifier::external_body]
fn uppercase(s: &str) -> (r: String)
    ensures
        r@ == upper_of(s@),
{
    s.to_uppercase()
}

/// Relies on `regex::RegexBuilder::build` and `regex::Regex::captures`:
/// compilation succeeds exactly when the pattern is valid under the size
/// limits, and the first match's capture group 1 — when that group
/// participated in the match, else the whole match — depends on pattern
/// and text alone.  The error text comes from the regex engine.
#[verifier::external_body]
fn regex_first_capture(pattern: &str, text: &str) -> (r: Result<Option<String>, String>)
    ensures
        (r is Ok) == regex_ok(pattern@),
        r matches Ok(Some(m)) ==> regex_capture(pattern@, text@) == Some(m@),
        r matches Ok(None) ==> regex_capture(pattern@, text@) is None,
{
    let limits = regex::RegexBuilder::new(pattern).size_limit(REGEX_SIZE_LIMIT).dfa_size_limit(
        REGEX_DFA_SIZE_LIMIT,
    ).build();
    match limits {
        Err(e) => Err(e.to_string()),
        Ok(re) => Ok(match re.captures(text) {
            Some(caps) => match caps.get(1).or(caps.get(0)) {
                Some(m) => Some(m.as_str().to_string()),
                None => None,
            },
            None => None,
        }),
    }
}

/// Relies on `f64::from_str` and `serde_json::Number::from_f64` with
/// `Number`'s display: parsing succeeds exactly when the text is a
/// floating-point literal, and the canonical decimal text (absent for a
/// non-finite value) depends on the input text alone.
#[verifier::external_body]
fn float_decimal_repr(s: &str) -> (r: Result<Option<String>, ()>)
    ensures
        (r is Ok) == float_parses(s@),
        r matches Ok(Some(t)) ==> float_repr_of(s@) == Some(t@),
        r matches Ok(None) ==> float_repr_of(s@) is None,
{
    match s.parse() {
        Err(_) => Err(()),
        Ok(v) => Ok(match serde_json::Number::from_f64(v) {
            Some(n) => Some(n.to_string()),
            None => None,
        }),
    }
}

/// Does one transform succeed on this value?  `null` always passes
/// through; a non-string value is refused; a string is refused only by a
/// failing numeric parse or an invalid regex pattern.
pub open spec fn transform_ok(v: JsonVal, p: PipeCommand) -> bool {
    match v {
        JsonVal::Null => true,
        JsonVal::Text(s) => match p {
            PipeCommand::ParseAsNumber | PipeCommand::ParseAsFloat => float_parses(trimmed(s)),
            PipeCommand::ParseAsInt => match int_literal(trimmed(s)) {
                Option::Some(n) => i64::MIN <= n <= i64::MAX,
                Option::None => false,
            },
            PipeCommand::Regex(pattern) => regex_ok(pattern@),
            _ => true,
        },
        _ => false,
    }
}

/// The value one successful transform yields.
pub open spec fn transform_val(v: JsonVal, p: PipeCommand) -> JsonVal {
    match v {
        JsonVal::Null => JsonVal::Null,
        JsonVal::Text(s) => match p {
            PipeCommand::Trim => JsonVal::Text(trimmed(s)),
            PipeCommand::Lower => JsonVal::Text(lower_of(s)),
            PipeCommand::Upper => JsonVal::Text(upper_of(s)),
            PipeCommand::Substr(start, end) => JsonVal::Text(
                substr_of(s, start as int, match end {
                    Option::Some(e) => Option::Some(e as int),
                    Option::None => Option::None,
                }),
            ),
            PipeCommand::ParseAsNumber | PipeCommand::ParseAsFloat => match float_repr_of(
                trimmed(s),
            ) {
                Option::Some(t) => JsonVal::Num(t),
                Option::None => JsonVal::Null,
            },
            PipeCommand::ParseAsInt => match int_literal(trimmed(s)) {
                Option::Some(n) => JsonVal::Int(n as i64),
                Option::None => JsonVal::Null,
            },
            PipeCommand::Regex(pattern) => match regex_capture(pattern@, s) {
                Option::Some(m) => JsonVal::Text(m),
                Option::None => JsonVal::Null,
            },
            _ => v,
        },
        _ => v,
    }
}

/// Do all transforms succeed, applied left to right?
pub open spec fn pipes_ok(v: JsonVal, ps: Seq<PipeCommand>) -> bool
    decreases ps.len(),
{
    ps.len() == 0 || (transform_ok(v, ps[0]) && pipes_ok(transform_val(v, ps[0]), ps.skip(1)))
}

/// The value the whole transform chain yields.
pub open spec fn pipes_val(v: JsonVal, ps: Seq<PipeCommand>) -> JsonVal
    decreases ps.len(),
{
    if ps.len() == 0 {
        v
    } else {
        pipes_val(transform_val(v, ps[0]), ps.skip(1))
    }
}

/// The null short-circuit law: a `null` value passes through any chain
/// of transform pipes unchanged, and no transform on it can fail.
pub proof fn lemma_pipes_null(ps: Seq<PipeCommand>)
    ensures
        pipes_ok(JsonVal::Null, ps),
        pipes_val(JsonVal::Null, ps) == JsonVal::Null,
    decreases ps.len(),
{
    if ps.len() > 0 {
        lemma_pipes_null(ps.skip(1));
    }
}

/// Apply one transform pipe to a value.
pub fn apply_pipe(value: JsonValue, pipe: &PipeCommand) -> (r: Result<JsonValue, Error>)
    ensures
        (r is Ok) == transform_ok(value@, *pipe),
        r matches Ok(w) ==> w@ == transform_val(value@, *pipe),
        r matches Err(e) ==> match e {
            Error::Conversion(t) => value@ is Text && t@ == value@->Text_0,
            Error::RegexCompile(_) => value@ is Text,
            Error::TypeMismatch => !(value@ is Text) && !(value@ is Null),
            _ => false,
        },
{
    if matches!(value, JsonValue::Null) {
        return Result::Ok(JsonValue::Null);
    }
    let s: &String = match &value {
        JsonValue::Text(s) => s,
        _ => {
            return Result::Err(Error::TypeMismatch);
        },
    };
    match pipe {
        PipeCommand::Trim => Result::Ok(JsonValue::Text(trim(s.as_str()).to_owned())),
        PipeCommand::Lower => Result::Ok(JsonValue::Text(lowercase(s.as_str()))),
        PipeCommand::Upper => Result::Ok(JsonValue::Text(uppercase(s.as_str()))),
        PipeCommand::Substr(start, end) => {
            let piece = crate::strutil::substr_chars(s.as_str(), *start, *end);
            Result::Ok(JsonValue::Text(piece.to_owned()))
        },
        PipeCommand::ParseAsNumber | PipeCommand::ParseAsFloat => {
            match float_decimal_repr(trim(s.as_str())) {
                Result::Ok(Option::Some(t)) => Result::Ok(JsonValue::Num(t)),
                Result::Ok(Option::None) => Result::Ok(JsonValue::Null),
                Result::Err(_) => Result::Err(Error::Conversion(s.clone())),
            }
        },
        PipeCommand::ParseAsInt => {
            match parse_i64_str(trim(s.as_str())) {
                Option::Some(n) => Result::Ok(JsonValue::Int(n)),
                Option::None => Result::Err(Error::Conversion(s.clone())),
            }
        },
        PipeCommand::Regex(pattern) => {
            match regex_first_capture(pattern.as_str(), s.as_str()) {
                Result::Ok(Option::Some(m)) => Result::Ok(JsonValue::Text(m)),
                Result::Ok(Option::None) => Result::Ok(JsonValue::Null),
                Result::Err(cause) => Result::Err(Error::RegexCompile(cause)),
            }
        },
        PipeCommand::Attr(_) => Result::Ok(value),
        PipeCommand::Void => Result::Ok(value),
    }
}

/// Apply the transform pipes from position `from` on to a value, left
/// to right.
#[verifier::loop_isolation(false)]
pub fn apply_transforms(initial: JsonValue, pipes: &Vec<PipeCommand>, from: usize) -> (r: Result<
    JsonValue,
    Error,
>)
    requires
        from <= pipes@.len(),
    ensures
        (r is Ok) == pipes_ok(initial@, pipes@.skip(from as int)),
        r matches Ok(w) ==> w@ == pipes_val(initial@, pipes@.skip(from as int)),
        r matches Err(e) ==> (e is Conversion || e is RegexCompile || e is TypeMismatch),
{
    let ghost start = initial@;
    let ghost chain = pipes@.skip(from as int);
    let mut current = initial;
    let mut i: usize = from;
    proof {
        assert(chain.skip(0) =~= chain);
    }
    while i < pipes.len()
        invariant
            from <= i <= pipes.len(),
            chain == pipes@.skip(from as int),
            pipes_ok(start, chain) == pipes_ok(current@, chain.skip(i - from)),
            pipes_val(start, chain) == pipes_val(current@, chain.skip(i - from)),
        decreases pipes.len() - i,
    {
        let ghost rest = chain.skip(i - from);
        proof {
            assert(rest[0] == chain[i - from]);
            assert(chain[i - from] == pipes@[i as int]);
            assert(rest.skip(1) =~= chain.skip(i - from + 1));
        }
        current = match apply_pipe(current, &pipes[i]) {
            Result::Ok(w) => w,
            Result::Err(e) => {
                return Result::Err(e);
            },
        };
        i += 1;
    }
    proof {
        assert(chain.skip(chain.len() as int) =~= Seq::<PipeCommand>::empty());
    }
    Result::Ok(current)
}

/// Apply a whole pipe list to a raw text value, left to right.
pub fn apply_pipes(value: &str, pipes: &Vec<PipeCommand>) -> (r: Result<JsonValue, Error>)
    ensures
        (r is Ok) == pipes_ok(JsonVal::Text(value@), pipes@),
        r matches Ok(w) ==> w@ == pipes_val(JsonVal::Text(value@), pipes@),
        r matches Err(e) ==> (e is Conversion || e is RegexCompile || e is TypeMismatch),
{
    proof {
        assert(pipes@.skip(0) =~= pipes@);
    }
    apply_transforms(JsonValue::Text(value.to_owned()), pipes, 0)
}

} // verus!
