//! The parsed document and its query surface.
//!
//! Parsing and CSS matching are the HTML engine's work; this module keeps
//! them behind small trusted wrappers and builds the library's own
//! `Dom` and `Node` handles on top.  The void-element heuristics — which
//! tag names are void, and how text is read out of a void element's
//! serialized HTML — are the library's own logic and are verified.

use std::rc::Rc;

use vstd::prelude::*;

use crate::errors::Error;
use crate::strutil::is_blank;
use crate::strutil::is_ws;
use crate::strutil::is_ws_char;
use crate::strutil::str_eq;
use crate::strutil::trim;
use crate::strutil::trimmed;

verus! {

#[verifier::external_type_specification]
#[verifier::external_body]
pub struct ExHtml(scraper::Html);

#[verifier::external_type_specification]
#[verifier::external_body]
pub struct ExSelector(scraper::Selector);

#[verifier::external_type_specification]
#[verifier::external_body]
pub struct ExNodeId(ego_tree::NodeId);

/// Whether the CSS selector parser accepts this text: a function of the
/// text alone.
pub uninterp spec fn selector_ok(s: Seq<char>) -> bool;

/// Relies on `scraper::Html::parse_fragment`, which parses any input
/// without failing.
#[verifier::external_body]
fn parse_fragment(source: &str) -> scraper::Html {
    scraper::Html::parse_fragment(source)
}

/// Relies on `scraper::Selector::parse`: success depends on the selector
/// text alone; the error text comes from the CSS parser.
#[verifier::external_body]
fn compile_selector(s: &str) -> (r: Result<scraper::Selector, String>)
    ensures
        (r is Ok) == selector_ok(s@),
{
    match scraper::Selector::parse(s) {
        Ok(sel) => Ok(sel),
        Err(e) => Err(e.to_string()),
    }
}

/// Relies on `scraper::Html::select`: the first element matching the
/// selector, in document order.
#[verifier::external_body]
fn query_first_id(doc: &scraper::Html, sel: &scraper::Selector) -> Option<ego_tree::NodeId> {
    match doc.select(sel).next() {
        Some(el) => Some(el.id()),
        None => None,
    }
}

/// Relies on `scraper::Html::select`: all elements matching the
/// selector, in document order.
#[verifier::external_body]
fn query_all_ids(doc: &scraper::Html, sel: &scraper::Selector) -> Vec<ego_tree::NodeId> {
    let mut out = Vec::new();
    for el in doc.select(sel) {
        out.push(el.id());
    }
    out
}

/// Relies on `scraper::ElementRef::select`: the first descendant of the
/// base element matching the selector, in document order; nothing when
/// the base is not an element of this document.
#[verifier::external_body]
fn query_first_id_in(
    doc: &scraper::Html,
    base: ego_tree::NodeId,
    sel: &scraper::Selector,
) -> Option<ego_tree::NodeId> {
    match doc.tree.get(base).and_then(scraper::ElementRef::wrap) {
        Some(el) => match el.select(sel).next() {
            Some(found) => Some(found.id()),
            None => None,
        },
        None => None,
    }
}

/// Relies on `scraper::ElementRef::select`: all descendants of the base
/// element matching the selector, in document order.
#[verifier::external_body]
fn query_all_ids_in(
    doc: &scraper::Html,
    base: ego_tree::NodeId,
    sel: &scraper::Selector,
) -> Vec<ego_tree::NodeId> {
    let mut out = Vec::new();
    if let Some(el) = doc.tree.get(base).and_then(scraper::ElementRef::wrap) {
        for found in el.select(sel) {
            out.push(found.id());
        }
    }
    out
}

/// Relies on `ego_tree::NodeRef::next_siblings` with
/// `scraper::ElementRef::wrap`: the element siblings after the base
/// node, in document order.
#[verifier::external_body]
fn following_sibling_ids(doc: &scraper::Html, base: ego_tree::NodeId) -> Vec<ego_tree::NodeId> {
    let mut out = Vec::new();
    if let Some(node) = doc.tree.get(base) {
        for sib in node.next_siblings() {
            if let Some(el) = scraper::ElementRef::wrap(sib) {
                out.push(el.id());
            }
        }
    }
    out
}

/// Relies on `scraper::ElementRef::text`: the concatenated text of the
/// element's subtree; empty for a non-element node.
#[verifier::external_body]
fn element_text(doc: &scraper::Html, id: ego_tree::NodeId) -> String {
    match doc.tree.get(id).and_then(scraper::ElementRef::wrap) {
        Some(el) => el.text().collect::<String>(),
        None => String::new(),
    }
}

/// Relies on `scraper::ElementRef::attr`: the value of the named
/// attribute, when the element has it.
#[verifier::external_body]
fn element_attr(doc: &scraper::Html, id: ego_tree::NodeId, name: &str) -> Option<String> {
    match doc.tree.get(id).and_then(scraper::ElementRef::wrap) {
        Some(el) => match el.attr(name) {
            Some(v) => Some(v.to_string()),
            None => None,
        },
        None => None,
    }
}

/// Relies on `scraper::ElementRef::html`: the serialized HTML of the
/// element; empty for a non-element node.
#[verifier::external_body]
fn element_html(doc: &scraper::Html, id: ego_tree::NodeId) -> String {
    match doc.tree.get(id).and_then(scraper::ElementRef::wrap) {
        Some(el) => el.html(),
        None => String::new(),
    }
}

/// Relies on `scraper::Element::name`: the element's tag name; empty for
/// a non-element node.
#[verifier::external_body]
fn element_tag_name(doc: &scraper::Html, id: ego_tree::NodeId) -> String {
    match doc.tree.get(id).and_then(scraper::ElementRef::wrap) {
        Some(el) => el.value().name().to_string(),
        None => String::new(),
    }
}

/// Relies on `ego_tree::NodeRef::next_sibling` with
/// `scraper::Node::as_text`: the raw text of the node right after the
/// base, when that node is a text node.
#[verifier::external_body]
fn next_sibling_text(doc: &scraper::Html, id: ego_tree::NodeId) -> Option<String> {
    match doc.tree.get(id) {
        Some(node) => match node.next_sibling() {
            Some(sib) => match sib.value().as_text() {
                Some(text) => Some(String::from(&*text.text)),
                None => None,
            },
            None => None,
        },
        None => None,
    }
}

/// Relies on `std::rc::Rc::clone`: the clone shares the same document.
#[verifier::external_body]
fn clone_doc(doc: &Rc<scraper::Html>) -> (r: Rc<scraper::Html>)
    ensures
        r == *doc,
{
    Rc::clone(doc)
}

/// Check that a selector compiles, dropping the compiled form.
pub(crate) fn ensure_selector(selector: &str) -> (r: Result<(), Error>)
    ensures
        (r is Ok) == selector_ok(selector@),
        r matches Err(e) ==> (e matches Error::SelectorSyntax(t, _) && t@ == selector@),
{
    match compile_selector(selector) {
        Result::Ok(_) => Result::Ok(()),
        Result::Err(cause) => Result::Err(Error::SelectorSyntax(selector.to_owned(), cause)),
    }
}

/// The HTML void element names, which have no closing tag.
pub open spec fn is_void_name(s: Seq<char>) -> bool {
    s == "area"@ || s == "base"@ || s == "br"@ || s == "col"@ || s == "embed"@ || s == "hr"@ || s
        == "img"@ || s == "input"@ || s == "link"@ || s == "meta"@ || s == "param"@ || s
        == "source"@ || s == "track"@ || s == "wbr"@
}

/// Check if an element name is an HTML void element.
pub fn is_void_element(name: &str) -> (r: bool)
    ensures
        r == is_void_name(name@),
{
    str_eq(name, "area") || str_eq(name, "base") || str_eq(name, "br") || str_eq(name, "col")
        || str_eq(name, "embed") || str_eq(name, "hr") || str_eq(name, "img") || str_eq(
        name,
        "input",
    ) || str_eq(name, "link") || str_eq(name, "meta") || str_eq(name, "param") || str_eq(
        name,
        "source",
    ) || str_eq(name, "track") || str_eq(name, "wbr")
}

/// The position of the first occurrence of `c`, or the length when `c`
/// does not occur.
pub open spec fn first_idx(s: Seq<char>, c: char) -> int
    decreases s.len(),
{
    if s.len() == 0 {
        0
    } else if s[0] == c {
        0
    } else {
        1 + first_idx(s.skip(1), c)
    }
}

/// `first_idx` finds the leftmost occurrence.
proof fn lemma_first_idx(s: Seq<char>, c: char, k: int)
    requires
        0 <= k <= s.len(),
        forall|j: int| 0 <= j < k ==> s[j] != c,
        k < s.len() ==> s[k] == c,
        k == s.len() ==> forall|j: int| 0 <= j < s.len() ==> s[j] != c,
    ensures
        first_idx(s, c) == k,
    decreases s.len(),
{
    if s.len() > 0 {
        if k > 0 {
            let t = s.skip(1);
            assert(forall|j: int| 0 <= j < k - 1 ==> #[trigger] t[j] == s[j + 1]);
            lemma_first_idx(t, c, k - 1);
        }
    }
}

/// Find the first occurrence of `c` in `s`.
#[verifier::loop_isolation(false)]
fn find_char(s: &str, c: char) -> (r: usize)
    ensures
        r == first_idx(s@, c),
        r <= s@.len(),
{
    let n = s.unicode_len();
    let mut i: usize = 0;
    while i < n
        invariant
            i <= n,
            forall|j: int| 0 <= j < i ==> s@[j] != c,
        decreases n - i,
    {
        if s.get_char(i) == c {
            proof {
                lemma_first_idx(s@, c, i as int);
            }
            return i;
        }
        i += 1;
    }
    proof {
        lemma_first_idx(s@, c, n as int);
    }
    n
}

/// The first whitespace-separated word: leading whitespace is skipped,
/// and the word ends at the next whitespace or at the end.
pub open spec fn first_word(s: Seq<char>) -> Seq<char>
    decreases s.len(),
{
    if s.len() == 0 {
        s
    } else if is_ws(s[0]) {
        first_word(s.skip(1))
    } else {
        s.take(first_ws(s))
    }
}

/// The position of the first whitespace character, or the length.
pub open spec fn first_ws(s: Seq<char>) -> int
    decreases s.len(),
{
    if s.len() == 0 {
        0
    } else if is_ws(s[0]) {
        0
    } else {
        1 + first_ws(s.skip(1))
    }
}

/// `first_ws` finds the leftmost whitespace.
proof fn lemma_first_ws(s: Seq<char>, k: int)
    requires
        0 <= k <= s.len(),
        forall|j: int| 0 <= j < k ==> !is_ws(s[j]),
        k < s.len() ==> is_ws(s[k]),
        k == s.len() ==> forall|j: int| 0 <= j < s.len() ==> !is_ws(s[j]),
    ensures
        first_ws(s) == k,
    decreases s.len(),
{
    if s.len() > 0 && k > 0 {
        let t = s.skip(1);
        assert(forall|j: int| 0 <= j < k - 1 ==> #[trigger] t[j] == s[j + 1]);
        lemma_first_ws(t, k - 1);
    }
}

/// Extract the first word of `s`, as `split_whitespace` would yield it.
#[verifier::loop_isolation(false)]
fn take_first_word<'a>(s: &'a str) -> (r: &'a str)
    ensures
        r@ == first_word(s@),
{
    let n = s.unicode_len();
    let mut start: usize = 0;
    while start < n && is_ws_char(s.get_char(start))
        invariant
            start <= n,
            forall|j: int| 0 <= j < start ==> is_ws(s@[j]),
        decreases n - start,
    {
        start += 1;
    }
    let mut end: usize = start;
    while end < n && !is_ws_char(s.get_char(end))
        invariant
            start <= end <= n,
            forall|j: int| start <= j < end ==> !is_ws(s@[j]),
        decreases n - end,
    {
        end += 1;
    }
    proof {
        lemma_first_word_at(s@, start as int, end as int);
    }
    s.substring_char(start, end)
}

/// `first_word` is the span from the first non-whitespace character to
/// the next whitespace.
proof fn lemma_first_word_at(s: Seq<char>, a: int, b: int)
    requires
        0 <= a <= b <= s.len(),
        forall|j: int| 0 <= j < a ==> is_ws(s[j]),
        forall|j: int| a <= j < b ==> !is_ws(s[j]),
        a < s.len() ==> !is_ws(s[a]) || a < b,
        a == b ==> (a == s.len() || is_ws(s[a])),
        b < s.len() ==> is_ws(s[b]),
    ensures
        first_word(s) == s.subrange(a, b),
    decreases s.len(),
{
    if s.len() == 0 {
        assert(s.subrange(a, b) =~= s);
    } else if is_ws(s[0]) {
        if a == 0 {
            assert(a == b);
            assert(first_word(s) =~= s.subrange(a, b)) by {
                lemma_first_word_blank(s);
            }
        } else {
            let t = s.skip(1);
            assert(forall|j: int| 0 <= j < b - 1 ==> #[trigger] t[j] == s[j + 1]);
            assert(forall|j: int| b - 1 <= j < t.len() ==> #[trigger] t[j] == s[j + 1]);
            lemma_first_word_at(t, a - 1, b - 1);
            assert(t.subrange(a - 1, b - 1) =~= s.subrange(a, b));
        }
    } else {
        assert(a == 0);
        assert(forall|j: int| 0 <= j < b ==> !is_ws(s[j]));
        lemma_first_ws(s, b);
        assert(s.take(b) =~= s.subrange(a, b));
    }
}

/// On all-whitespace input the first word is empty.
proof fn lemma_first_word_blank(s: Seq<char>)
    requires
        is_blank(s),
    ensures
        first_word(s).len() == 0,
    decreases s.len(),
{
    if s.len() > 0 {
        let t = s.skip(1);
        assert(forall|j: int| 0 <= j < t.len() ==> #[trigger] t[j] == s[j + 1]);
        lemma_first_word_blank(t);
    }
}

/// Does this serialized HTML open with a void element's tag?
pub open spec fn html_is_void(h: Seq<char>) -> bool {
    let p = first_idx(h, '>');
    p < h.len() && p >= 1 && is_void_name(first_word(h.subrange(1, p)))
}

/// Check if serialized HTML represents a void element.
pub fn is_void_element_from_html(html: &str) -> (r: bool)
    ensures
        r == html_is_void(html@),
{
    let p = find_char(html, '>');
    if p < html.unicode_len() && p >= 1 {
        let tag = html.substring_char(1, p);
        let word = take_first_word(tag);
        is_void_element(word)
    } else {
        false
    }
}

/// The trimmed text between the void element's closing `>` and the next
/// `<`, when there is one and it is not blank.
pub open spec fn void_sibling_text(h: Seq<char>) -> Option<Seq<char>> {
    let p = first_idx(h, '>');
    if p < h.len() {
        let after = h.skip(p + 1);
        let q = first_idx(after, '<');
        if q < after.len() && trimmed(after.take(q)).len() > 0 {
            Option::Some(trimmed(after.take(q)))
        } else {
            Option::None
        }
    } else {
        Option::None
    }
}

/// Extract the text that follows a void element in its serialized HTML.
pub fn get_void_text_from_html(html: &str) -> (r: Option<String>)
    ensures
        match r {
            Option::Some(t) => void_sibling_text(html@) == Option::Some(t@),
            Option::None => void_sibling_text(html@) is None,
        },
{
    let n = html.unicode_len();
    let p = find_char(html, '>');
    if p < n {
        let after = html.substring_char(p + 1, n);
        proof {
            assert(after@ =~= html@.skip(p + 1));
        }
        let q = find_char(after, '<');
        if q < after.unicode_len() {
            let text = after.substring_char(0, q);
            proof {
                assert(text@ =~= after@.take(q as int));
            }
            let cleaned = trim(text);
            if !cleaned.is_empty() {
                return Option::Some(cleaned.to_owned());
            }
        }
    }
    Option::None
}

/// A handle to one element of a parsed document.
pub struct Node {
    doc: Rc<scraper::Html>,
    id: ego_tree::NodeId,
}

impl Clone for Node {
    /// The clone refers to the same element of the same document.
    fn clone(&self) -> (r: Self)
        ensures
            r == *self,
    {
        Node { doc: clone_doc(&self.doc), id: self.id }
    }
}

impl Node {
    /// The text content of this element's subtree.  For an empty void
    /// element, the trimmed text of the immediately following text node
    /// stands in, when there is one.  That sibling fallback is a
    /// best-effort accommodation for feed-style markup, where a void
    /// element's text lands beside it; it applies to the default text
    /// source as well as to the `void` pipe, and is not a general
    /// statement about malformed documents.
    pub fn text(&self) -> String {
        let raw = element_text(&self.doc, self.id);
        if raw.as_str().is_empty() {
            let tag = element_tag_name(&self.doc, self.id);
            if is_void_element(tag.as_str()) {
                match next_sibling_text(&self.doc, self.id) {
                    Option::Some(t) => {
                        return trim(t.as_str()).to_owned();
                    },
                    Option::None => {},
                }
            }
        }
        raw
    }

    /// The value of the named attribute, when the element has it.
    pub fn attr(&self, name: &str) -> Option<String> {
        element_attr(&self.doc, self.id, name)
    }

    /// The serialized HTML of this element.
    pub fn html(&self) -> String {
        element_html(&self.doc, self.id)
    }
}

/// A parsed document, ready to be queried many times.
pub struct Dom {
    doc: Rc<scraper::Html>,
}

impl Dom {
    /// Parse an HTML fragment; parsing itself never fails.
    pub fn parse(source: &str) -> (r: Result<Dom, Error>)
        ensures
            r is Ok,
    {
        Result::Ok(Dom { doc: Rc::new(parse_fragment(source)) })
    }

    /// The first element matching the selector, against the whole
    /// document; an error exactly when the selector text is invalid.
    pub fn query_selector(&self, selector: &str) -> (r: Result<Option<Node>, Error>)
        ensures
            (r is Ok) == selector_ok(selector@),
            r matches Err(e) ==> (e matches Error::SelectorSyntax(t, _) && t@ == selector@),
    {
        match compile_selector(selector) {
            Result::Ok(sel) => Result::Ok(
                match query_first_id(&self.doc, &sel) {
                    Option::Some(id) => Option::Some(Node { doc: clone_doc(&self.doc), id }),
                    Option::None => Option::None,
                },
            ),
            Result::Err(cause) => Result::Err(
                Error::SelectorSyntax(selector.to_owned(), cause),
            ),
        }
    }

    /// All elements matching the selector, in document order; an error
    /// exactly when the selector text is invalid.
    pub fn query_selector_all(&self, selector: &str) -> (r: Result<Vec<Node>, Error>)
        ensures
            (r is Ok) == selector_ok(selector@),
            r matches Err(e) ==> (e matches Error::SelectorSyntax(t, _) && t@ == selector@),
    {
        match compile_selector(selector) {
            Result::Ok(sel) => {
                let ids = query_all_ids(&self.doc, &sel);
                Result::Ok(self.nodes_from_ids(ids))
            },
            Result::Err(cause) => Result::Err(
                Error::SelectorSyntax(selector.to_owned(), cause),
            ),
        }
    }

    /// The first element under `base` matching the selector; an error
    /// exactly when the selector text is invalid.
    pub fn query_selector_relative(&self, base: &Node, selector: &str) -> (r: Result<
        Option<Node>,
        Error,
    >)
        ensures
            (r is Ok) == selector_ok(selector@),
            r matches Err(e) ==> (e matches Error::SelectorSyntax(t, _) && t@ == selector@),
    {
        match compile_selector(selector) {
            Result::Ok(sel) => Result::Ok(
                match query_first_id_in(&base.doc, base.id, &sel) {
                    Option::Some(id) => Option::Some(Node { doc: clone_doc(&base.doc), id }),
                    Option::None => Option::None,
                },
            ),
            Result::Err(cause) => Result::Err(
                Error::SelectorSyntax(selector.to_owned(), cause),
            ),
        }
    }

    /// All elements under `base` matching the selector, in document
    /// order; an error exactly when the selector text is invalid.
    pub fn query_selector_all_relative(&self, base: &Node, selector: &str) -> (r: Result<
        Vec<Node>,
        Error,
    >)
        ensures
            (r is Ok) == selector_ok(selector@),
            r matches Err(e) ==> (e matches Error::SelectorSyntax(t, _) && t@ == selector@),
    {
        match compile_selector(selector) {
            Result::Ok(sel) => {
                let ids = query_all_ids_in(&base.doc, base.id, &sel);
                Result::Ok(self.nodes_from_ids(ids))
            },
            Result::Err(cause) => Result::Err(
                Error::SelectorSyntax(selector.to_owned(), cause),
            ),
        }
    }

    /// The element siblings following `base`, in document order.
    pub(crate) fn following_siblings(&self, base: &Node) -> Vec<Node> {
        let ids = following_sibling_ids(&base.doc, base.id);
        let mut out: Vec<Node> = Vec::new();
        let mut i: usize = 0;
        while i < ids.len()
            invariant
                i <= ids.len(),
            decreases ids.len() - i,
        {
            out.push(Node { doc: clone_doc(&base.doc), id: ids[i] });
            i += 1;
        }
        out
    }

    /// Wrap query results into nodes of this document.
    fn nodes_from_ids(&self, ids: Vec<ego_tree::NodeId>) -> (r: Vec<Node>)
        ensures
            r@.len() == ids@.len(),
    {
        let mut out: Vec<Node> = Vec::new();
        let mut i: usize = 0;
        while i < ids.len()
            invariant
                i <= ids.len(),
                out@.len() == i,
            decreases ids.len() - i,
        {
            out.push(Node { doc: clone_doc(&self.doc), id: ids[i] });
            i += 1;
        }
        out
    }
}

} // verus!
