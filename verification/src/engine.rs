//! The extraction engine: walking a spec against a document.
//!
//! An object resolves its scope selector against the incoming scope,
//! evaluates every field there, and shapes the assembled object.  A
//! selector field resolves one node and runs the pipe pipeline; a
//! fallback chain takes the first alternative whose result is neither
//! `null` nor blank text; an array queries all matching elements and
//! extracts its item fields once per element.
//!
//! What a query returns depends on the document, which the verifier does
//! not model; the contracts here say what holds of every outcome: which
//! errors can arise and when, and that every produced value has the
//! shape the spec prescribes — literals exactly, objects as the shaped
//! form of admissible field values, selector results as the pipe chain
//! applied to some text or null input.

use vstd::prelude::*;

use crate::dom::Dom;
use crate::dom::Node;
use crate::dom::get_void_text_from_html;
use crate::dom::is_void_element_from_html;
use crate::dom::selector_ok;
use crate::dsl::ArraySpec;
use crate::dsl::Field;
use crate::dsl::FieldSpec;
use crate::dsl::LiteralValue;
use crate::dsl::ObjectSpec;
use crate::dsl::PipeCommand;
use crate::dsl::SelectorRef;
use crate::dsl::Spec;
use crate::dsl::has_prefix;
use crate::errors::Error;
use crate::json::JsonVal;
use crate::json::JsonValue;
use crate::pipe::apply_transforms;
use crate::pipe::pipes_ok;
use crate::pipe::pipes_val;
use crate::shape::RawField;
use crate::shape::raw_view;
use crate::shape::raws_view;
use crate::shape::shape_entries;
use crate::shape::shape_fields;
use crate::strutil::is_blank;
use crate::strutil::lemma_trimmed_blank;
use crate::strutil::substr_chars;
use crate::strutil::trim;
use crate::strutil::trimmed;

verus! {

/// The JSON value a literal denotes.
pub open spec fn lit_val(lit: LiteralValue) -> JsonVal {
    match lit {
        LiteralValue::Text(s) => JsonVal::Text(s@),
        LiteralValue::Number(t) => JsonVal::Num(t@),
        LiteralValue::Int(i) => JsonVal::Int(i),
        LiteralValue::Boolean(b) => JsonVal::Bool(b),
        LiteralValue::Null => JsonVal::Null,
    }
}

/// Where the transform pipes begin: after a leading source pipe.
pub open spec fn transforms_from(ps: Seq<PipeCommand>) -> int {
    if ps.len() > 0 && ps[0].is_source() {
        1
    } else {
        0
    }
}

/// A meaningful fallback result: neither `null` nor blank text.
pub open spec fn is_meaningful(w: JsonVal) -> bool {
    !(w is Null) && !(w is Text && is_blank(w->Text_0))
}

/// What a fallback chain yields from its alternatives' results: the
/// first meaningful one, else `null`.
pub open spec fn fallback_choice(results: Seq<JsonVal>) -> JsonVal
    decreases results.len(),
{
    if results.len() == 0 {
        JsonVal::Null
    } else if is_meaningful(results[0]) {
        results[0]
    } else {
        fallback_choice(results.skip(1))
    }
}

/// An admissible result of one selector-with-pipes field: `null`, or
/// the transform chain applied to some source value.  The source is
/// text — the node's subtree text, an attribute value, or the void
/// heuristic's text — except under a leading `attr:` pipe, whose source
/// may be `null` when the attribute is absent.
pub open spec fn sel_result_ok(ps: Seq<PipeCommand>, w: JsonVal) -> bool {
    ||| w is Null
    ||| exists|v0: JsonVal|
        (v0 is Text || (v0 is Null && ps.len() > 0 && ps[0] matches PipeCommand::Attr(_)))
            && pipes_ok(v0, ps.skip(transforms_from(ps))) && w == pipes_val(
            v0,
            ps.skip(transforms_from(ps)),
        )
}

/// An admissible result of one field.
pub open spec fn field_result_ok(f: FieldSpec, w: JsonVal) -> bool
    decreases f,
{
    match f {
        FieldSpec::Literal(lit) => w == lit_val(lit),
        FieldSpec::Selector(_, ps) => sel_result_ok(ps@, w),
        FieldSpec::FallbackSelector(items) => exists|rs: Seq<JsonVal>|
            rs.len() <= items@.len() && (forall|k: int|
                0 <= k < rs.len() ==> sel_result_ok((#[trigger] items@[k]).1@, rs[k])) && w
                == fallback_choice(rs),
        FieldSpec::Nested(o) => fields_result_ok(o.fields@, w),
        FieldSpec::NestedArray(a) => arr_result_ok(a.item_spec.fields@, w),
    }
}

/// Admissible raw field values for a field list: same keys and optional
/// flags in order, each value admissible for its field spec.
pub open spec fn raw_matches(raw: Seq<(Seq<char>, JsonVal, bool)>, fs: Seq<(String, Field)>) -> bool
    decreases fs, 0int,
{
    &&& raw.len() == fs.len()
    &&& forall|i: int|
        0 <= i < raw.len() ==> (#[trigger] raw[i]).0 == (#[trigger] fs[i]).0@ && raw[i].2
            == fs[i].1.optional && field_result_ok(fs[i].1.kind, raw[i].1)
}

/// An admissible extracted object for a field list: the shaped form of
/// some admissible raw field values.
pub open spec fn fields_result_ok(fs: Seq<(String, Field)>, w: JsonVal) -> bool
    decreases fs, 1int,
{
    exists|raw: Seq<(Seq<char>, JsonVal, bool)>|
        raw_matches(raw, fs) && w == JsonVal::Obj(#[trigger] shape_entries(raw))
}

/// An admissible extracted array: every element an admissible object of
/// the item field list.
pub open spec fn arr_result_ok(fs: Seq<(String, Field)>, w: JsonVal) -> bool
    decreases fs, 2int,
{
    w is Arr && forall|i: int|
        0 <= i < w->Arr_0.len() ==> fields_result_ok(fs, #[trigger] w->Arr_0[i])
}

/// An admissible result of a whole spec.
pub open spec fn spec_result_ok(sp: Spec, w: JsonVal) -> bool {
    match sp {
        Spec::Object(o) => fields_result_ok(o.fields@, w),
        Spec::Array(a) => arr_result_ok(a.item_spec.fields@, w),
        Spec::Literal(lit) => w == lit_val(lit),
    }
}

/// The errors extraction can end with; spec parsing is already behind.
pub open spec fn is_extract_error(e: Error) -> bool {
    ||| e is SelectorSyntax
    ||| e is ScopeRequired
    ||| e is TypeMismatch
    ||| e is Conversion
    ||| e is RegexCompile
}

/// Fields whose values are all literals; extracting them queries
/// nothing and cannot fail.
pub open spec fn literal_fields_only(fs: Seq<(String, Field)>) -> bool {
    forall|i: int| 0 <= i < fs.len() ==> (#[trigger] fs[i]).1.kind matches FieldSpec::Literal(_)
}

/// A spec whose extraction is owed to succeed: a literal, or an object
/// that keeps the incoming scope (no scope selector, or `$`) and has
/// only literal fields — nothing in it makes a query or a transform
/// that could fail.
pub open spec fn extraction_cannot_fail(sp: Spec) -> bool {
    match sp {
        Spec::Literal(_) => true,
        Spec::Object(o) => (o.scope_selector is None || (o.scope_selector
            matches Option::Some(sr) && sr@ == "$"@)) && literal_fields_only(o.fields@),
        Spec::Array(_) => false,
    }
}

/// Is the array's item scope selector the self reference `$`?
pub open spec fn is_self_item(a: ArraySpec) -> bool {
    a.item_spec.scope_selector matches Option::Some(sr) && sr@ == "$"@
}

/// A next-sibling selector: `+ ` followed by the selector to search the
/// following siblings for.
pub open spec fn is_sibling_sel(s: Seq<char>) -> bool {
    has_prefix(s, "+ "@)
}

/// The selector text after the next-sibling marker.
pub open spec fn sibling_inner(s: Seq<char>) -> Seq<char> {
    s.skip(2)
}

/// A direct-child selector: a leading `>`.
pub open spec fn is_child_sel(s: Seq<char>) -> bool {
    s.len() > 0 && s[0] == '>'
}

/// The trimmed selector text after the direct-child marker.
pub open spec fn child_inner(s: Seq<char>) -> Seq<char> {
    trimmed(s.skip(1))
}

/// The result hands the incoming scope back unchanged: the scope node
/// itself when there is one, nothing otherwise.
pub open spec fn keeps_scope(r: Result<Option<Node>, Error>, scope: Option<&Node>) -> bool {
    match scope {
        Option::Some(b) => r matches Result::Ok(n) && n matches Option::Some(m) && m == *b,
        Option::None => r matches Result::Ok(n) && n is None,
    }
}

/// Convert a literal to its JSON value.
pub fn literal_to_json(lit: &LiteralValue) -> (r: JsonValue)
    ensures
        r@ == lit_val(*lit),
{
    match lit {
        LiteralValue::Text(s) => JsonValue::Text(s.clone()),
        LiteralValue::Number(t) => JsonValue::Num(t.clone()),
        LiteralValue::Int(i) => JsonValue::Int(*i),
        LiteralValue::Boolean(b) => JsonValue::Bool(*b),
        LiteralValue::Null => JsonValue::Null,
    }
}

/// The first meaningful result wins, whatever follows it.
proof fn lemma_fallback_choice_accept(rs: Seq<JsonVal>)
    requires
        rs.len() > 0,
        forall|k: int| 0 <= k < rs.len() - 1 ==> !is_meaningful(#[trigger] rs[k]),
        is_meaningful(rs.last()),
    ensures
        fallback_choice(rs) == rs.last(),
    decreases rs.len(),
{
    if rs.len() > 1 {
        let t = rs.skip(1);
        assert(forall|k: int| 0 <= k < t.len() ==> #[trigger] t[k] == rs[k + 1]);
        assert(t.last() == rs.last());
        lemma_fallback_choice_accept(t);
    }
}

/// With no meaningful result the chain yields `null`.
proof fn lemma_fallback_choice_exhausted(rs: Seq<JsonVal>)
    requires
        forall|k: int| 0 <= k < rs.len() ==> !is_meaningful(#[trigger] rs[k]),
    ensures
        fallback_choice(rs) == JsonVal::Null,
    decreases rs.len(),
{
    if rs.len() > 0 {
        let t = rs.skip(1);
        assert(forall|k: int| 0 <= k < t.len() ==> #[trigger] t[k] == rs[k + 1]);
        lemma_fallback_choice_exhausted(t);
    }
}

/// The fallback law for two alternatives: the chain yields the first
/// alternative's result when it is meaningful, and the second's result
/// otherwise — provided the second's result is not itself blank text, on
/// which the chain falls through to `null` instead.
pub proof fn lemma_fallback_two(a: JsonVal, b: JsonVal)
    requires
        !(b is Text && is_blank(b->Text_0)),
    ensures
        fallback_choice(seq![a, b]) == if is_meaningful(a) {
            a
        } else {
            b
        },
{
    let rs = seq![a, b];
    assert(rs[0] == a);
    if !is_meaningful(a) {
        let t = seq![b];
        assert(rs.skip(1) =~= t);
        assert(t[0] == b);
        assert(t.skip(1) =~= Seq::<JsonVal>::empty());
        if is_meaningful(b) {
            assert(fallback_choice(t) == b);
        } else {
            assert(b is Null);
            assert(fallback_choice(Seq::<JsonVal>::empty()) == JsonVal::Null);
            assert(fallback_choice(t) == JsonVal::Null);
        }
        assert(fallback_choice(rs) == fallback_choice(t));
    }
}

impl Dom {
    /// Extract a JSON value from this document by the spec.
    pub fn extract(&self, spec: &Spec) -> (r: Result<JsonValue, Error>)
        ensures
            r matches Ok(w) ==> spec_result_ok(*spec, w@),
            r matches Err(e) ==> is_extract_error(e),
            extraction_cannot_fail(*spec) ==> r is Ok,
    {
        match spec {
            Spec::Object(o) => self.extract_object(o, Option::None),
            Spec::Array(a) => self.extract_array(a, Option::None),
            Spec::Literal(lit) => Result::Ok(literal_to_json(lit)),
        }
    }

    /// Resolve a scope selector against the incoming scope: no selector
    /// or `$` keeps the scope, a `>` selector queries under it with the
    /// marker stripped, anything else queries under it as written.
    fn resolve_scope(&self, selector: &Option<SelectorRef>, base: Option<&Node>) -> (r: Result<
        Option<Node>,
        Error,
    >)
        ensures
            match selector {
                Option::Some(sr) => {
                    &&& (sr@ == "$"@ ==> keeps_scope(r, base))
                    &&& (sr@ != "$"@ && is_child_sel(sr@) ==> ((r is Ok) == selector_ok(
                        child_inner(sr@),
                    )))
                    &&& (sr@ != "$"@ && !is_child_sel(sr@) ==> ((r is Ok) == selector_ok(sr@)))
                },
                Option::None => keeps_scope(r, base),
            },
            r matches Err(e) ==> e is SelectorSyntax,
            match r {
                Result::Err(e) => match e {
                    Error::SelectorSyntax(t, _) => match selector {
                        Option::Some(sr) => if is_child_sel(sr@) {
                            t@ == child_inner(sr@)
                        } else {
                            t@ == sr@
                        },
                        Option::None => false,
                    },
                    _ => true,
                },
                _ => true,
            },
    {
        let sr = match selector {
            Option::Some(sr) => sr,
            Option::None => {
                return Result::Ok(clone_scope(base));
            },
        };
        if sr.is_self_ref() {
            return Result::Ok(clone_scope(base));
        }
        let s = sr.as_str();
        if s.unicode_len() > 0 && s.get_char(0) == '>' {
            let effective = trim(substr_chars(s, 1, Option::None));
            proof {
                assert(effective@ == child_inner(sr@)) by {
                    assert(crate::strutil::substr_of(s@, 1, Option::None) =~= s@.skip(1));
                }
            }
            match base {
                Option::Some(b) => self.query_selector_relative(b, effective),
                Option::None => self.query_selector(effective),
            }
        } else {
            match base {
                Option::Some(b) => self.query_selector_relative(b, s),
                Option::None => self.query_selector(s),
            }
        }
    }

    /// Resolve one selector to at most one node.  `$` returns the scope
    /// itself; `+ ` scans the scope's following siblings, and requires a
    /// scope; `>` and plain selectors query under the scope, or under
    /// the whole document without one.
    #[verifier::loop_isolation(false)]
    fn select_node(&self, selector: &SelectorRef, scope: Option<&Node>) -> (r: Result<
        Option<Node>,
        Error,
    >)
        ensures
            selector@ == "$"@ ==> keeps_scope(r, scope),
            selector@ != "$"@ && is_sibling_sel(selector@) && scope is None ==> (r matches Err(e)
                && e is ScopeRequired),
            selector@ != "$"@ && is_sibling_sel(selector@) && scope is Some ==> ((r is Ok)
                == selector_ok(sibling_inner(selector@))),
            selector@ != "$"@ && !is_sibling_sel(selector@) && is_child_sel(selector@) ==> ((
            r is Ok) == selector_ok(child_inner(selector@))),
            selector@ != "$"@ && !is_sibling_sel(selector@) && !is_child_sel(selector@) ==> ((
            r is Ok) == selector_ok(selector@)),
            r matches Err(e) ==> e is SelectorSyntax || e is ScopeRequired,
            match r {
                Result::Err(e) => match e {
                    Error::SelectorSyntax(t, _) => if is_sibling_sel(selector@) {
                        t@ == sibling_inner(selector@)
                    } else if is_child_sel(selector@) {
                        t@ == child_inner(selector@)
                    } else {
                        t@ == selector@
                    },
                    _ => true,
                },
                _ => true,
            },
    {
        if selector.is_self_ref() {
            return Result::Ok(clone_scope(scope));
        }
        let s = selector.as_str();
        if crate::strutil::str_starts_with(s, "+ ") {
            proof {
                reveal_strlit("+ ");
            }
            let base = match scope {
                Option::Some(b) => b,
                Option::None => {
                    return Result::Err(Error::ScopeRequired);
                },
            };
            let inner = substr_chars(s, 2, Option::None);
            proof {
                assert(inner@ =~= sibling_inner(selector@));
            }
            crate::dom::ensure_selector(inner)?;
            let siblings = self.following_siblings(base);
            let mut i: usize = 0;
            while i < siblings.len()
                invariant
                    i <= siblings.len(),
                    selector_ok(inner@),
                decreases siblings.len() - i,
            {
                match self.query_selector_relative(&siblings[i], inner) {
                    Result::Ok(Option::Some(found)) => {
                        return Result::Ok(Option::Some(found));
                    },
                    Result::Ok(Option::None) => {},
                    Result::Err(e) => {
                        return Result::Err(e);
                    },
                }
                i += 1;
            }
            return Result::Ok(Option::None);
        }
        if s.unicode_len() > 0 && s.get_char(0) == '>' {
            let effective = trim(substr_chars(s, 1, Option::None));
            proof {
                assert(effective@ == child_inner(selector@)) by {
                    assert(crate::strutil::substr_of(s@, 1, Option::None) =~= s@.skip(1));
                }
            }
            return match scope {
                Option::Some(base) => self.query_selector_relative(base, effective),
                Option::None => self.query_selector(effective),
            };
        }
        match scope {
            Option::Some(base) => self.query_selector_relative(base, s),
            Option::None => self.query_selector(s),
        }
    }

    /// Run the pipe pipeline on a resolved node: no node yields `null`
    /// and runs nothing; otherwise the leading source pipe (attribute,
    /// or void-element text) or the subtree text gives the raw value,
    /// and the transform pipes run on it in order.
    fn apply_pipes_to_node(&self, node: Option<Node>, pipes: &Vec<PipeCommand>) -> (r: Result<
        JsonValue,
        Error,
    >)
        ensures
            node is None ==> (r matches Ok(w) && w@ == JsonVal::Null),
            r matches Ok(w) ==> sel_result_ok(pipes@, w@),
            r matches Err(e) ==> e is TypeMismatch || e is Conversion || e is RegexCompile,
    {
        let n = match node {
            Option::Some(n) => n,
            Option::None => {
                return Result::Ok(JsonValue::Null);
            },
        };
        let has_source = pipes.len() > 0 && (matches!(&pipes[0], PipeCommand::Attr(_)) || matches!(
            &pipes[0],
            PipeCommand::Void,
        ));
        let from: usize = if has_source {
            1
        } else {
            0
        };
        proof {
            assert(from == transforms_from(pipes@));
        }
        let initial: JsonValue = if has_source {
            match &pipes[0] {
                PipeCommand::Attr(name) => match n.attr(name.as_str()) {
                    Option::Some(v) => JsonValue::Text(v),
                    Option::None => JsonValue::Null,
                },
                _ => {
                    let text = n.text();
                    if text.as_str().is_empty() {
                        let html = n.html();
                        if is_void_element_from_html(html.as_str()) {
                            match get_void_text_from_html(html.as_str()) {
                                Option::Some(t) => JsonValue::Text(t),
                                Option::None => JsonValue::Text(text),
                            }
                        } else {
                            JsonValue::Text(text)
                        }
                    } else {
                        JsonValue::Text(text)
                    }
                },
            }
        } else {
            JsonValue::Text(n.text())
        };
        proof {
            assert(initial@ is Text || initial@ is Null);
        }
        apply_transforms(initial, pipes, from)
    }

    /// Evaluate a fallback chain: alternatives in order, accepting the
    /// first whose result is neither `null` nor blank text, else `null`.
    #[verifier::loop_isolation(false)]
    fn extract_fallback(
        &self,
        items: &Vec<(SelectorRef, Vec<PipeCommand>)>,
        scope: Option<&Node>,
    ) -> (r: Result<JsonValue, Error>)
        ensures
            r matches Ok(w) ==> exists|rs: Seq<JsonVal>|
                rs.len() <= items@.len() && (forall|k: int|
                    0 <= k < rs.len() ==> sel_result_ok((#[trigger] items@[k]).1@, rs[k])) && w@
                    == fallback_choice(rs),
            r matches Err(e) ==> is_extract_error(e),
    {
        let ghost mut rs: Seq<JsonVal> = Seq::empty();
        let mut i: usize = 0;
        while i < items.len()
            invariant
                i <= items.len(),
                rs.len() == i,
                forall|k: int| 0 <= k < i ==> sel_result_ok((#[trigger] items@[k]).1@, rs[k]),
                forall|k: int| 0 <= k < i ==> !is_meaningful(#[trigger] rs[k]),
            decreases items.len() - i,
        {
            let node = match self.select_node(&items[i].0, scope) {
                Result::Ok(n) => n,
                Result::Err(e) => {
                    return Result::Err(e);
                },
            };
            let result = match self.apply_pipes_to_node(node, &items[i].1) {
                Result::Ok(w) => w,
                Result::Err(e) => {
                    return Result::Err(e);
                },
            };
            let meaningful: bool = match &result {
                JsonValue::Null => false,
                JsonValue::Text(s) => {
                    let t = trim(s.as_str());
                    proof {
                        lemma_trimmed_blank(s@);
                    }
                    !t.is_empty()
                },
                _ => true,
            };
            proof {
                assert(meaningful == is_meaningful(result@));
            }
            if meaningful {
                proof {
                    let prev = rs;
                    rs = rs.push(result@);
                    assert(forall|k: int| 0 <= k < prev.len() ==> #[trigger] rs[k] == prev[k]);
                    assert(rs.last() == result@);
                    assert(forall|k: int| 0 <= k < rs.len() - 1 ==> !is_meaningful(#[trigger] rs[k]));
                    lemma_fallback_choice_accept(rs);
                }
                return Result::Ok(result);
            }
            proof {
                let prev = rs;
                rs = rs.push(result@);
                assert(forall|k: int| 0 <= k < prev.len() ==> #[trigger] rs[k] == prev[k]);
            }
            i += 1;
        }
        proof {
            lemma_fallback_choice_exhausted(rs);
        }
        Result::Ok(JsonValue::Null)
    }

    /// Extract one field's value against the current scope.
    fn extract_field(&self, f: &FieldSpec, scope: Option<&Node>) -> (r: Result<JsonValue, Error>)
        ensures
            r matches Ok(w) ==> field_result_ok(*f, w@),
            r matches Err(e) ==> is_extract_error(e),
            f matches FieldSpec::Literal(_) ==> r is Ok,
        decreases *f, 0int,
    {
        match f {
            FieldSpec::Literal(lit) => Result::Ok(literal_to_json(lit)),
            FieldSpec::Nested(o) => {
                proof {
                    assert(decreases_to!(*f => *o));
                }
                self.extract_object(o, scope)
            },
            FieldSpec::NestedArray(a) => self.extract_array(a, scope),
            FieldSpec::Selector(sr, pipes) => {
                let node = match self.select_node(sr, scope) {
                    Result::Ok(n) => n,
                    Result::Err(e) => {
                        return Result::Err(e);
                    },
                };
                self.apply_pipes_to_node(node, pipes)
            },
            FieldSpec::FallbackSelector(items) => self.extract_fallback(items, scope),
        }
    }

    /// Evaluate every field of a list against the scope, in order.
    #[verifier::loop_isolation(false)]
    fn extract_fields(&self, fields: &Vec<(String, Field)>, scope: Option<&Node>) -> (r: Result<
        Vec<RawField>,
        Error,
    >)
        ensures
            r matches Ok(raws) ==> raw_matches(raws_view(raws@), fields@),
            r matches Err(e) ==> is_extract_error(e),
            literal_fields_only(fields@) ==> r is Ok,
        decreases *fields, 0int,
    {
        let mut raws: Vec<RawField> = Vec::new();
        let mut i: usize = 0;
        while i < fields.len()
            invariant
                i <= fields.len(),
                raws@.len() == i,
                forall|k: int|
                    0 <= k < i ==> raw_view(#[trigger] raws@[k]).0 == (#[trigger] fields@[k]).0@
                        && raw_view(raws@[k]).2 == fields@[k].1.optional && field_result_ok(
                        fields@[k].1.kind,
                        raw_view(raws@[k]).1,
                    ),
            decreases fields.len() - i,
        {
            proof {
                assert(decreases_to!(*fields => fields@));
                assert(decreases_to!(fields@ => fields@[i as int]));
                assert(decreases_to!(fields@[i as int] => fields@[i as int].1));
                assert(decreases_to!(fields@[i as int].1 => fields@[i as int].1.kind));
            }
            let value = match self.extract_field(&fields[i].1.kind, scope) {
                Result::Ok(w) => w,
                Result::Err(e) => {
                    proof {
                        assert(!literal_fields_only(fields@)) by {
                            if literal_fields_only(fields@) {
                                assert(fields@[i as int].1.kind matches FieldSpec::Literal(_));
                            }
                        }
                    }
                    return Result::Err(e);
                },
            };
            let key = fields[i].0.clone();
            raws.push((key, value, fields[i].1.optional));
            i += 1;
        }
        proof {
            assert(raws_view(raws@).len() == fields@.len());
            assert(forall|k: int|
                0 <= k < raws@.len() ==> #[trigger] raws_view(raws@)[k] == raw_view(raws@[k]));
        }
        Result::Ok(raws)
    }

    /// Extract an object: resolve the scope selector, evaluate every
    /// field against the resolved scope, and shape the result.
    fn extract_object(&self, o: &ObjectSpec, scope: Option<&Node>) -> (r: Result<JsonValue, Error>)
        ensures
            r matches Ok(w) ==> fields_result_ok(o.fields@, w@),
            r matches Err(e) ==> is_extract_error(e),
            (o.scope_selector is None || (o.scope_selector matches Option::Some(sr) && sr@
                == "$"@)) && literal_fields_only(o.fields@) ==> r is Ok,
        decreases *o, 0int,
    {
        let effective = match self.resolve_scope(&o.scope_selector, scope) {
            Result::Ok(n) => n,
            Result::Err(e) => {
                return Result::Err(e);
            },
        };
        proof {
            assert(decreases_to!(*o => o.fields));
        }
        let raws = match self.extract_fields(&o.fields, effective.as_ref()) {
            Result::Ok(raws) => raws,
            Result::Err(e) => {
                proof {
                    assert(!literal_fields_only(o.fields@));
                }
                return Result::Err(e);
            },
        };
        let ghost raw = raws_view(raws@);
        let shaped = shape_fields(raws);
        let result = JsonValue::Obj(shaped);
        proof {
            assert(result@ == JsonVal::Obj(shape_entries(raw)));
            assert(raw_matches(raw, o.fields@));
            assert(exists|raw2: Seq<(Seq<char>, JsonVal, bool)>|
                #[trigger] raw_matches(raw2, o.fields@) && result@ == JsonVal::Obj(
                    shape_entries(raw2),
                ));
            assert(fields_result_ok(o.fields@, result@));
        }
        Result::Ok(result)
    }

    /// Extract an array.  An item spec whose scope selector is `$` wraps
    /// the current scope as the single item; otherwise the item scope
    /// selector (with a leading `>` stripped, `*` when absent) picks the
    /// elements, and the item fields are evaluated once per element,
    /// without reapplying the item scope selector.
    #[verifier::loop_isolation(false)]
    fn extract_array(&self, a: &ArraySpec, scope: Option<&Node>) -> (r: Result<JsonValue, Error>)
        ensures
            r matches Ok(w) ==> arr_result_ok(a.item_spec.fields@, w@),
            r matches Err(e) ==> is_extract_error(e),
            is_self_item(*a) && scope is Some ==> match r {
                Result::Ok(w) => w@ is Arr && w@->Arr_0.len() == 1,
                Result::Err(_) => true,
            },
        decreases *a, 1int,
    {
        let is_self = match &a.item_spec.scope_selector {
            Option::Some(sr) => sr.is_self_ref(),
            Option::None => false,
        };
        if is_self && scope.is_some() {
            proof {
                assert(decreases_to!(*a => a.item_spec));
            }
            let obj = match self.extract_object(&a.item_spec, scope) {
                Result::Ok(w) => w,
                Result::Err(e) => {
                    return Result::Err(e);
                },
            };
            let ghost objv = obj@;
            let mut items: Vec<JsonValue> = Vec::new();
            items.push(obj);
            proof {
                crate::json::lemma_items_view(items@);
                assert(crate::json::items_view(items@) =~= seq![objv]);
            }
            return Result::Ok(JsonValue::Arr(items));
        }
        let stripped: String;
        let effective: &str = match &a.item_spec.scope_selector {
            Option::Some(sr) => {
                let st = trim(sr.as_str());
                if st.unicode_len() > 0 && st.get_char(0) == '>' {
                    stripped = trim(substr_chars(st, 1, Option::None)).to_owned();
                    stripped.as_str()
                } else {
                    sr.as_str()
                }
            },
            Option::None => "*",
        };
        let nodes = match scope {
            Option::Some(base) => {
                match self.query_selector_all_relative(base, effective) {
                    Result::Ok(ns) => ns,
                    Result::Err(e) => {
                        return Result::Err(e);
                    },
                }
            },
            Option::None => {
                match self.query_selector_all(effective) {
                    Result::Ok(ns) => ns,
                    Result::Err(e) => {
                        return Result::Err(e);
                    },
                }
            },
        };
        proof {
            assert(decreases_to!(*a => a.item_spec));
            assert(decreases_to!(a.item_spec => a.item_spec.fields));
        }
        match self.extract_items(&a.item_spec.fields, &nodes) {
            Result::Ok(out) => {
                let ghost outv = out@;
                let result = JsonValue::Arr(out);
                proof {
                    crate::json::lemma_items_view(outv);
                    assert(result@ == JsonVal::Arr(crate::json::items_view(outv)));
                }
                Result::Ok(result)
            },
            Result::Err(e) => Result::Err(e),
        }
    }

    /// Extract the item fields once per matched element, in order: one
    /// output element per node, so no matches give the empty array.
    #[verifier::loop_isolation(false)]
    fn extract_items(&self, fields: &Vec<(String, Field)>, nodes: &Vec<Node>) -> (r: Result<
        Vec<JsonValue>,
        Error,
    >)
        ensures
            r matches Ok(out) ==> out@.len() == nodes@.len() && (forall|k: int|
                0 <= k < out@.len() ==> fields_result_ok(
                    fields@,
                    #[trigger] crate::json::items_view(out@)[k],
                )),
            r matches Err(e) ==> is_extract_error(e),
        decreases *fields, 1int,
    {
        let mut out: Vec<JsonValue> = Vec::new();
        let mut i: usize = 0;
        proof {
            crate::json::lemma_items_view(out@);
        }
        while i < nodes.len()
            invariant
                i <= nodes.len(),
                out@.len() == i,
                crate::json::items_view(out@).len() == i,
                forall|k: int|
                    0 <= k < i ==> fields_result_ok(
                        fields@,
                        #[trigger] crate::json::items_view(out@)[k],
                    ),
            decreases nodes.len() - i,
        {
            let raws = match self.extract_fields(fields, Option::Some(&nodes[i])) {
                Result::Ok(raws) => raws,
                Result::Err(e) => {
                    return Result::Err(e);
                },
            };
            let ghost raw = raws_view(raws@);
            let shaped = shape_fields(raws);
            let ghost prev = out@;
            let item = JsonValue::Obj(shaped);
            let ghost itemv = item@;
            out.push(item);
            proof {
                crate::json::lemma_items_view_push(prev, out@.last());
                crate::json::lemma_items_view(out@);
                assert(out@.drop_last() =~= prev);
                assert(crate::json::items_view(out@) == crate::json::items_view(prev).push(itemv));
                assert(forall|k: int|
                    0 <= k < i ==> #[trigger] crate::json::items_view(out@)[k]
                        == crate::json::items_view(prev)[k]);
                assert(raw_matches(raw, fields@));
                assert(itemv == JsonVal::Obj(shape_entries(raw)));
                assert(exists|raw2: Seq<(Seq<char>, JsonVal, bool)>|
                    #[trigger] raw_matches(raw2, fields@) && itemv == JsonVal::Obj(
                        shape_entries(raw2),
                    ));
                assert(fields_result_ok(fields@, itemv));
                assert(crate::json::items_view(out@)[i as int] == itemv);
            }
            i += 1;
        }
        proof {
            crate::json::lemma_items_view(out@);
        }
        Result::Ok(out)
    }
}

/// Duplicate an optional scope handle.
fn clone_scope(scope: Option<&Node>) -> (r: Option<Node>)
    ensures
        r is Some <==> scope is Some,
        match scope {
            Option::Some(n) => r matches Some(m) && m == *n,
            Option::None => r is None,
        },
{
    match scope {
        Option::Some(n) => Option::Some(n.clone()),
        Option::None => Option::None,
    }
}

} // verus!