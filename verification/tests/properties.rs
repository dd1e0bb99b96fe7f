//! Behavioural tests: the documented properties of shaping, fallback,
//! pipes and errors, each on concrete values.

use html2json::dom::Dom;
use html2json::dom::is_void_element;
use html2json::dsl::SelectorRef;
use html2json::errors::Error;
use html2json::json::JsonValue;
use html2json::shape::clean_value;
use html2json::shape::shape_fields;
use html2json::Spec;
use html2json::extract;

fn from_serde(v: &serde_json::Value) -> JsonValue {
    match v {
        serde_json::Value::Null => JsonValue::Null,
        serde_json::Value::Bool(b) => JsonValue::Bool(*b),
        serde_json::Value::Number(n) => match serde_json::Number::from_f64(n.as_f64().unwrap_or(0.0))
        {
            Some(m) => JsonValue::Num(m.to_string()),
            None => JsonValue::Null,
        },
        serde_json::Value::String(s) => JsonValue::Text(s.clone()),
        serde_json::Value::Array(items) => JsonValue::Arr(items.iter().map(from_serde).collect()),
        serde_json::Value::Object(map) => {
            JsonValue::Obj(map.iter().map(|(k, v)| (k.clone(), from_serde(v))).collect())
        }
    }
}

fn to_serde(v: &JsonValue) -> serde_json::Value {
    match v {
        JsonValue::Null => serde_json::Value::Null,
        JsonValue::Bool(b) => serde_json::Value::Bool(*b),
        JsonValue::Int(i) => serde_json::Value::Number(serde_json::Number::from(*i)),
        JsonValue::Num(s) => serde_json::Value::Number(s.parse().unwrap()),
        JsonValue::Text(s) => serde_json::Value::String(s.clone()),
        JsonValue::Arr(items) => serde_json::Value::Array(items.iter().map(to_serde).collect()),
        JsonValue::Obj(fields) => {
            let mut map = serde_json::Map::new();
            for (k, v) in fields {
                map.insert(k.clone(), to_serde(v));
            }
            serde_json::Value::Object(map)
        }
    }
}

fn spec_of(text: &str) -> Spec {
    let v: serde_json::Value = serde_json::from_str(text).unwrap();
    Spec::from_json(&from_serde(&v)).unwrap()
}

fn run(html: &str, spec_text: &str) -> serde_json::Value {
    to_serde(&extract(html, &spec_of(spec_text)).unwrap())
}

fn run_err(html: &str, spec_text: &str) -> Error {
    extract(html, &spec_of(spec_text)).unwrap_err()
}

#[test]
fn empty_document_gives_empty_arrays_and_nulls() {
    let result = run(
        "",
        r##"{
            "items": [{ "$": "li", "text": "$" }],
            "value": "h1"
        }"##,
    );
    assert_eq!(result["items"].as_array().unwrap().len(), 0);
    assert!(result["value"].is_null());
    assert!(result.as_object().unwrap().contains_key("value"));
}

#[test]
fn shaping_twice_equals_shaping_once() {
    let messy = JsonValue::Obj(vec![
        ("a".to_string(), JsonValue::Null),
        (
            "b".to_string(),
            JsonValue::Obj(vec![
                ("inner".to_string(), JsonValue::Null),
                ("kept".to_string(), JsonValue::Text("x".to_string())),
            ]),
        ),
        (
            "c".to_string(),
            JsonValue::Arr(vec![JsonValue::Null, JsonValue::Int(3)]),
        ),
        ("d".to_string(), JsonValue::Obj(vec![("gone".to_string(), JsonValue::Null)])),
    ]);
    let once = clean_value(&messy);
    let twice = clean_value(&once);
    assert_eq!(once, twice);

    let raws = vec![
        ("x".to_string(), JsonValue::Null, true),
        ("y".to_string(), JsonValue::Null, false),
        ("z".to_string(), JsonValue::Arr(vec![]), false),
    ];
    let shaped = shape_fields(raws);
    let again = shape_fields(
        shaped
            .into_iter()
            .map(|(k, v)| {
                let optional = k == "x";
                (k, v, optional)
            })
            .collect(),
    );
    assert_eq!(again.len(), 2);
    assert_eq!(again[0].0, "y");
    assert_eq!(again[0].1, JsonValue::Null);
    assert_eq!(again[1].0, "z");
    assert_eq!(again[1].1, JsonValue::Arr(vec![]));
}

#[test]
fn fallback_takes_second_when_first_is_null_or_blank() {
    let html = r##"<div id="s"><p class="a">   </p><p class="b">B text</p></div>"##;
    // first yields whitespace-only text
    let result = run(html, r##"{ "$": "#s", "f": ".a || .b" }"##);
    assert_eq!(result["f"], "B text");
    // first yields null (no match)
    let result = run(html, r##"{ "$": "#s", "f": ".missing || .b" }"##);
    assert_eq!(result["f"], "B text");
    // first yields a meaningful value
    let html2 = r##"<div id="s"><p class="a">A text</p><p class="b">B text</p></div>"##;
    let result = run(html2, r##"{ "$": "#s", "f": ".a || .b" }"##);
    assert_eq!(result["f"], "A text");
    // everything exhausted
    let result = run(html, r##"{ "$": "#s", "f": ".missing || .gone" }"##);
    assert!(result["f"].is_null());
}

#[test]
fn optional_null_field_is_pruned() {
    let result = run("", r##"{ "x?": null, "y": null }"##);
    let obj = result.as_object().unwrap();
    assert!(!obj.contains_key("x"));
    assert!(obj.contains_key("y"));
    assert!(result["y"].is_null());
    assert_eq!(obj.len(), 1);
}

#[test]
fn pipe_order_matters() {
    let html = r##"<div id="p"><h1>  hi  </h1></div>"##;
    let result = run(html, r##"{ "$": "#p", "v": "h1 | trim | upper" }"##);
    assert_eq!(result["v"], "HI");
    let first = run(html, r##"{ "$": "#p", "v": "h1 | substr:0:3 | trim" }"##);
    let second = run(html, r##"{ "$": "#p", "v": "h1 | trim | substr:0:3" }"##);
    assert_eq!(first["v"], "h");
    assert_eq!(second["v"], "hi");
    assert_ne!(first["v"], second["v"]);
}

#[test]
fn regex_no_match_short_circuits_to_null() {
    let html = r##"<div id="r"><span class="p">Price: $25.00</span><span class="q">no price here</span></div>"##;
    let result = run(html, r##"{ "$": "#r", "v": ".p | regex:\\$(\\d+\\.\\d+)" }"##);
    assert_eq!(result["v"], "25.00");
    let result = run(html, r##"{ "$": "#r", "v": ".q | regex:\\$(\\d+\\.\\d+)" }"##);
    assert!(result["v"].is_null());
    // a later parseAs:number leaves the null untouched rather than erroring
    let result = run(
        html,
        r##"{ "$": "#r", "v": ".q | regex:\\$(\\d+\\.\\d+) | parseAs:number" }"##,
    );
    assert!(result["v"].is_null());
}

#[test]
fn scoped_child_selector_scenario() {
    let result = run(
        r##"<div id="a"><h1>Hi</h1></div>"##,
        r##"{ "$": "#a", "t": "> h1" }"##,
    );
    assert_eq!(result["t"], "Hi");
    assert_eq!(result.as_object().unwrap().len(), 1);
}

#[test]
fn array_spec_at_top_level() {
    let result = run(
        r##"<ul><li>A</li><li>B</li></ul>"##,
        r##"[{ "$": "li", "text": "$" }]"##,
    );
    let arr = result.as_array().unwrap();
    assert_eq!(arr.len(), 2);
    assert_eq!(arr[0]["text"], "A");
    assert_eq!(arr[1]["text"], "B");
}

#[test]
fn self_reference_array_wraps_the_scope() {
    let result = run(
        r##"<div id="p">Own text</div>"##,
        r##"{ "$": "#p", "items": [{ "$": "$", "text": "$" }] }"##,
    );
    let items = result["items"].as_array().unwrap();
    assert_eq!(items.len(), 1);
    assert_eq!(items[0]["text"], "Own text");
}

#[test]
fn unknown_pipe_token_is_a_spec_error() {
    let v: serde_json::Value = serde_json::from_str(r##"{ "f": "h1 | bogus" }"##).unwrap();
    let err = Spec::from_json(&from_serde(&v)).unwrap_err();
    assert!(matches!(err, Error::SpecParse(_)));
}

#[test]
fn bad_substr_argument_is_a_spec_error() {
    let v: serde_json::Value = serde_json::from_str(r##"{ "f": "h1 | substr:x" }"##).unwrap();
    let err = Spec::from_json(&from_serde(&v)).unwrap_err();
    assert!(matches!(err, Error::SpecParse(_)));
}

#[test]
fn source_pipe_after_transform_is_a_spec_error() {
    let v: serde_json::Value =
        serde_json::from_str(r##"{ "f": "h1 | trim | attr:href" }"##).unwrap();
    let err = Spec::from_json(&from_serde(&v)).unwrap_err();
    assert!(matches!(err, Error::SpecParse(_)));
}

#[test]
fn invalid_selector_is_a_selector_error() {
    let err = run_err("<p>x</p>", r##"{ "f": "li[" }"##);
    assert!(matches!(err, Error::SelectorSyntax(_, _)));
}

#[test]
fn sibling_selector_without_scope_is_an_error() {
    let err = run_err("<p>x</p>", r##"{ "f": "+ p" }"##);
    assert_eq!(err, Error::ScopeRequired);
}

#[test]
fn transform_on_non_string_is_a_type_error() {
    let err = run_err(
        r##"<div id="n"><span>42</span></div>"##,
        r##"{ "$": "#n", "f": "span | parseAs:int | trim" }"##,
    );
    assert_eq!(err, Error::TypeMismatch);
}

#[test]
fn failed_numeric_parse_is_a_conversion_error() {
    let err = run_err(
        r##"<div id="n"><span>not a number</span></div>"##,
        r##"{ "$": "#n", "f": "span | parseAs:int" }"##,
    );
    assert!(matches!(err, Error::Conversion(_)));
    let err = run_err(
        r##"<div id="n"><span>not a number</span></div>"##,
        r##"{ "$": "#n", "f": "span | parseAs:number" }"##,
    );
    assert!(matches!(err, Error::Conversion(_)));
}

#[test]
fn invalid_regex_is_a_regex_error() {
    let err = run_err(
        r##"<div id="n"><span>text</span></div>"##,
        r##"{ "$": "#n", "f": "span | regex:(" }"##,
    );
    assert!(matches!(err, Error::RegexCompile(_)));
}

#[test]
fn number_pipe_canonicalizes_scientific_notation() {
    let result = run(
        r##"<div id="n"><span>1e2</span></div>"##,
        r##"{ "$": "#n", "f": "span | parseAs:number" }"##,
    );
    assert_eq!(result["f"], 100.0);
}

#[test]
fn integer_pipe_accepts_signs_and_large_values() {
    let html = r##"<div id="n"><span class="a"> -42 </span><span class="b">+7</span><span class="c">9223372036854775807</span><span class="d">9223372036854775808</span></div>"##;
    let result = run(html, r##"{ "$": "#n", "v": ".a | parseAs:int" }"##);
    assert_eq!(result["v"], -42);
    let result = run(html, r##"{ "$": "#n", "v": ".b | parseAs:int" }"##);
    assert_eq!(result["v"], 7);
    let result = run(html, r##"{ "$": "#n", "v": ".c | parseAs:int" }"##);
    assert_eq!(result["v"], 9223372036854775807i64);
    let err = run_err(html, r##"{ "$": "#n", "v": ".d | parseAs:int" }"##);
    assert!(matches!(err, Error::Conversion(_)));
}

#[test]
fn substr_with_start_past_end_is_empty() {
    let result = run(
        r##"<div id="s"><h1>abcdef</h1></div>"##,
        r##"{ "$": "#s", "v": "h1 | substr:4:2" }"##,
    );
    assert_eq!(result["v"], "");
}

#[test]
fn void_element_takes_following_text() {
    let result = run(
        r##"<div id="v"><br>  hello there  <span>tail</span></div>"##,
        r##"{ "$": "#v", "t": "br | void" }"##,
    );
    assert_eq!(result["t"], "hello there");
}

#[test]
fn void_element_names() {
    assert!(is_void_element("br"));
    assert!(is_void_element("img"));
    assert!(is_void_element("link"));
    assert!(!is_void_element("div"));
    assert!(!is_void_element(""));
}

#[test]
fn selector_ref_accessors() {
    let sr = SelectorRef::from_text("$".to_string());
    assert!(sr.is_self_ref());
    assert_eq!(sr.as_str(), "$");
    let other = SelectorRef::from_text("div.item".to_string());
    assert!(!other.is_self_ref());
    assert_eq!(other.as_str(), "div.item");
}

#[test]
fn empty_nested_object_is_dropped() {
    let result = run(
        "<p>x</p>",
        r##"{ "outer": { "inner": ".missing" }, "kept": null }"##,
    );
    let obj = result.as_object().unwrap();
    assert!(!obj.contains_key("outer"));
    assert!(obj.contains_key("kept"));
}

#[test]
fn empty_optional_array_is_dropped_but_required_kept() {
    let result = run(
        "<p>x</p>",
        r##"{ "gone?": [{ "$": ".missing", "v": "$" }], "kept": [{ "$": ".missing", "v": "$" }] }"##,
    );
    let obj = result.as_object().unwrap();
    assert!(!obj.contains_key("gone"));
    assert_eq!(result["kept"].as_array().unwrap().len(), 0);
}

#[test]
fn string_literals_and_quotes() {
    let result = run("<p>x</p>", r##"{ "a": "'single'", "b": "\"double\"" }"##);
    assert_eq!(result["a"], "single");
    assert_eq!(result["b"], "double");
}

#[test]
fn queries_can_be_repeated_on_one_dom() {
    let dom = Dom::parse(r##"<div id="a"><h1>Hi</h1></div>"##).unwrap();
    let one = dom.query_selector("#a h1").unwrap().unwrap();
    assert_eq!(one.text(), "Hi");
    assert_eq!(one.html().contains("<h1>"), true);
    assert_eq!(one.attr("id"), None);
    let all = dom.query_selector_all("h1").unwrap();
    assert_eq!(all.len(), 1);
    let again = dom.query_selector_all("h1").unwrap();
    assert_eq!(again.len(), 1);
    let spec = spec_of(r##"{ "$": "#a", "t": "h1" }"##);
    let first = to_serde(&dom.extract(&spec).unwrap());
    let second = to_serde(&dom.extract(&spec).unwrap());
    assert_eq!(first, second);
}
