//! The extraction scenarios from the library's documentation examples:
//! one section of the fixture per test.

use html2json::json::JsonValue;
use html2json::Spec;
use html2json::extract;

const HTML: &str = r##"
<div id="test-01"><h1>Hello World</h1></div>
<div id="test-02"><a href="https://example.com">Link</a></div>
<div id="test-03"><article><h1>Title</h1><div class="content">Body text</div></article></div>
<div id="test-04"><article><h1>My Post</h1><div class="author"><span class="name">Jane</span><a href="mailto:jane@example.com">mail</a></div></article></div>
<div id="test-05"><ul><li>First</li><li>Second</li><li>Third</li></ul></div>
<div id="test-06"><div class="product"><h2>Widget A</h2><span class="price">$10</span></div><div class="product"><h2>Widget B</h2><span class="price">$20</span></div></div>
<div id="test-07"><h1>Test</h1></div>
<div id="test-08"><span>   messy text   </span></div>
<div id="test-09"><h1>Hello World</h1></div>
<div id="test-10"><h1>hello</h1></div>
<div id="test-11"><h1>Hello</h1></div>
<div id="test-12"><span class="price">99.99</span></div>
<div id="test-13"><span class="count">42</span></div>
<div id="test-14"><a href="mailto:test@example.com">mail</a></div>
<div id="test-15"><span class="price">Price: $19.99</span></div>
<div id="test-16"><h1>Exists</h1></div>
<div id="test-17"><p>nothing to collect here</p></div>
<div id="test-18"><a href="/link" id="link1" class="btn">go</a></div>
<div id="test-19"><div class="container"><h1>Shopping List</h1><ul><li>Apples</li><li>Bananas</li></ul></div></div>
<div id="test-20"><p>First paragraph</p><p>Second paragraph</p></div>
<div id="test-21"><span class="float">3.14159</span></div>
<div id="test-22"><table><tbody>
<tr class="athing"><td><a class="titlelink">Item 1 Title</a></td></tr>
<tr><td class="subtext"><span class="score">100 points</span><a class="hnuser">user1</a><a>100 comments</a></td></tr>
<tr class="athing"><td><a class="titlelink">Item 2 Title</a></td></tr>
<tr><td class="subtext"><span class="score">50 points</span><a class="hnuser">user2</a><a>50 comments</a></td></tr>
</tbody></table></div>
"##;

fn from_serde(v: &serde_json::Value) -> JsonValue {
    match v {
        serde_json::Value::Null => JsonValue::Null,
        serde_json::Value::Bool(b) => JsonValue::Bool(*b),
        serde_json::Value::Number(n) => match serde_json::Number::from_f64(n.as_f64().unwrap_or(0.0))
        {
            Some(m) => JsonValue::Num(m.to_string()),
            None => JsonValue::Null,
        },
        serde_json::Value::String(s) => JsonValue::Text(s.clone()),
        serde_json::Value::Array(items) => JsonValue::Arr(items.iter().map(from_serde).collect()),
        serde_json::Value::Object(map) => {
            JsonValue::Obj(map.iter().map(|(k, v)| (k.clone(), from_serde(v))).collect())
        }
    }
}

fn to_serde(v: &JsonValue) -> serde_json::Value {
    match v {
        JsonValue::Null => serde_json::Value::Null,
        JsonValue::Bool(b) => serde_json::Value::Bool(*b),
        JsonValue::Int(i) => serde_json::Value::Number(serde_json::Number::from(*i)),
        JsonValue::Num(s) => serde_json::Value::Number(s.parse().unwrap()),
        JsonValue::Text(s) => serde_json::Value::String(s.clone()),
        JsonValue::Arr(items) => serde_json::Value::Array(items.iter().map(to_serde).collect()),
        JsonValue::Obj(fields) => {
            let mut map = serde_json::Map::new();
            for (k, v) in fields {
                map.insert(k.clone(), to_serde(v));
            }
            serde_json::Value::Object(map)
        }
    }
}

fn spec_from_str(text: &str) -> Spec {
    let v: serde_json::Value = serde_json::from_str(text).unwrap();
    Spec::from_json(&from_serde(&v)).unwrap()
}

fn run(spec_text: &str) -> serde_json::Value {
    let spec = spec_from_str(spec_text);
    to_serde(&extract(HTML, &spec).unwrap())
}

#[test]
fn basic_text_extraction() {
    let result = run(
        r##"{
            "$": "#test-01",
            "title": "h1"
        }"##,
    );
    assert_eq!(result["title"], "Hello World");
}

#[test]
fn attribute_extraction() {
    let result = run(
        r##"{
            "$": "#test-02",
            "link": "a | attr:href"
        }"##,
    );
    assert_eq!(result["link"], "https://example.com");
}

#[test]
fn scoping_with_dollar() {
    let result = run(
        r##"{
            "$": "#test-03 article",
            "headline": "> h1",
            "content": "> .content"
        }"##,
    );
    assert_eq!(result["headline"], "Title");
    assert_eq!(result["content"], "Body text");
}

#[test]
fn nested_scoping() {
    let result = run(
        r##"{
            "$": "#test-04 article",
            "title": "> h1",
            "author": {
                "$": "> .author",
                "name": "span.name",
                "email": "a | attr:href"
            }
        }"##,
    );
    assert_eq!(result["title"], "My Post");
    assert_eq!(result["author"]["name"], "Jane");
    assert_eq!(result["author"]["email"], "mailto:jane@example.com");
}

#[test]
fn collection_extraction() {
    let result = run(
        r##"{
            "$": "#test-05",
            "items": [{
                "$": "ul li",
                "text": "$"
            }]
        }"##,
    );
    let arr = result["items"].as_array().unwrap();
    assert_eq!(arr.len(), 3);
    assert_eq!(arr[0]["text"], "First");
    assert_eq!(arr[1]["text"], "Second");
    assert_eq!(arr[2]["text"], "Third");
}

#[test]
fn collection_with_nested_properties() {
    let result = run(
        r##"{
            "$": "#test-06",
            "products": [{
                "$": ".product",
                "name": "> h2",
                "price": "> .price"
            }]
        }"##,
    );
    let arr = result["products"].as_array().unwrap();
    assert_eq!(arr.len(), 2);
    assert_eq!(arr[0]["name"], "Widget A");
    assert_eq!(arr[0]["price"], "$10");
    assert_eq!(arr[1]["name"], "Widget B");
    assert_eq!(arr[1]["price"], "$20");
}

#[test]
fn literal_values() {
    let result = run(
        r##"{
            "$": "#test-07",
            "extracted": "h1",
            "source": "'web-scrape'",
            "version": 1.5,
            "active": true
        }"##,
    );
    assert_eq!(result["extracted"], "Test");
    assert_eq!(result["source"], "web-scrape");
    assert_eq!(result["version"], 1.5);
    assert_eq!(result["active"], true);
}

#[test]
fn trim_pipe() {
    let result = run(
        r##"{
            "$": "#test-08",
            "clean": "span | trim"
        }"##,
    );
    assert_eq!(result["clean"], "messy text");
}

#[test]
fn lowercase_pipe() {
    let result = run(
        r##"{
            "$": "#test-09",
            "lower": "h1 | lower"
        }"##,
    );
    assert_eq!(result["lower"], "hello world");
}

#[test]
fn uppercase_pipe() {
    let result = run(
        r##"{
            "$": "#test-10",
            "upper": "h1 | upper"
        }"##,
    );
    assert_eq!(result["upper"], "HELLO");
}

#[test]
fn substring_pipe() {
    let result = run(
        r##"{
            "$": "#test-11",
            "partial": "h1 | substr:0:4"
        }"##,
    );
    assert_eq!(result["partial"], "Hell");
}

#[test]
fn parse_as_number_pipe() {
    let result = run(
        r##"{
            "$": "#test-12",
            "price": ".price | parseAs:number"
        }"##,
    );
    assert_eq!(result["price"], 99.99);
}

#[test]
fn parse_as_int_pipe() {
    let result = run(
        r##"{
            "$": "#test-13",
            "count": ".count | parseAs:int"
        }"##,
    );
    assert_eq!(result["count"], 42);
}

#[test]
fn chained_pipes() {
    let result = run(
        r##"{
            "$": "#test-14",
            "email": "a | attr:href | substr:7"
        }"##,
    );
    assert_eq!(result["email"], "test@example.com");
}

#[test]
fn regex_pipe() {
    let result = run(
        r##"{
            "$": "#test-15",
            "amount": ".price | regex:\\$(\\d+\\.\\d+)"
        }"##,
    );
    assert_eq!(result["amount"], "19.99");
}

#[test]
fn no_match_returns_null() {
    let result = run(
        r##"{
            "$": "#test-16",
            "missing": ".nonexistent",
            "present": "h1"
        }"##,
    );
    assert!(result["missing"].is_null());
    assert_eq!(result["present"], "Exists");
}

#[test]
fn empty_collection_returns_empty_array() {
    let result = run(
        r##"{
            "$": "#test-17",
            "items": [{
                "$": ".nonexistent",
                "value": "$"
            }]
        }"##,
    );
    let arr = result["items"].as_array().unwrap();
    assert_eq!(arr.len(), 0);
}

#[test]
fn multiple_attributes() {
    let result = run(
        r##"{
            "$": "#test-18",
            "href": "a | attr:href",
            "id": "a | attr:id",
            "class": "a | attr:class"
        }"##,
    );
    assert_eq!(result["href"], "/link");
    assert_eq!(result["id"], "link1");
    assert_eq!(result["class"], "btn");
}

#[test]
fn complex_nested_structure() {
    let result = run(
        r##"{
            "$": "#test-19 .container",
            "title": "> h1",
            "items": {
                "$": "> ul",
                "list": [{
                    "$": "> li",
                    "text": "$"
                }]
            }
        }"##,
    );
    assert_eq!(result["title"], "Shopping List");
    let list = result["items"]["list"].as_array().unwrap();
    assert_eq!(list.len(), 2);
    assert_eq!(list[0]["text"], "Apples");
    assert_eq!(list[1]["text"], "Bananas");
}

#[test]
fn self_selector_in_collection() {
    let result = run(
        r##"{
            "$": "#test-20",
            "paragraphs": [{
                "$": "p",
                "content": "$"
            }]
        }"##,
    );
    let arr = result["paragraphs"].as_array().unwrap();
    assert_eq!(arr.len(), 2);
    assert_eq!(arr[0]["content"], "First paragraph");
    assert_eq!(arr[1]["content"], "Second paragraph");
}

#[test]
fn parse_as_float_pipe() {
    let result = run(
        r##"{
            "$": "#test-21",
            "pi": ".float | parseAs:float"
        }"##,
    );
    assert_eq!(result["pi"], 3.14159);
}

#[test]
fn next_sibling_with_last_child() {
    let result = run(
        r##"{
            "$": "#test-22",
            "items": [{
                "$": "tr.athing",
                "title": ".titlelink",
                "points": "+ .subtext .score",
                "user": "+ .subtext .hnuser",
                "comments": "+ .subtext > a:last-child"
            }]
        }"##,
    );
    let items = result["items"].as_array().unwrap();

    assert_eq!(items.len(), 2);

    assert_eq!(items[0]["title"], "Item 1 Title");
    assert_eq!(items[0]["points"], "100 points");
    assert_eq!(items[0]["user"], "user1");
    assert_eq!(items[0]["comments"], "100 comments");

    assert_eq!(items[1]["title"], "Item 2 Title");
    assert_eq!(items[1]["points"], "50 points");
    assert_eq!(items[1]["user"], "user2");
    assert_eq!(items[1]["comments"], "50 comments");
}
