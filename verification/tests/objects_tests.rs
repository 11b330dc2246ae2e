use json_automa::array;
use json_automa::null;
use json_automa::object;
use json_automa::parser;
use json_automa::string_to_json_escape;
use json_automa::Number;
use json_automa::NumberExponent;
use json_automa::ReaderJson;
use json_automa::TypeJson;

fn chars(s: &str) -> Vec<char> {
    s.chars().collect()
}

fn text(s: &str) -> TypeJson {
    TypeJson::Text(String::from(s))
}

#[test]
fn edit_objects() {
    let mut root = object();
    let mut obj1 = object();
    let mut obj_sub_1 = object();

    obj1.set("field", text("hello World"));
    root.set("key1", TypeJson::from(obj1));
    {
        let obj2 = root.object("key2");
        obj_sub_1.set("field", text("hello World 2"));
        obj2.set("key-sub-1", TypeJson::from(obj_sub_1));
    }

    match root.get("key1") {
        Some(TypeJson::Object(obj)) => match obj.get("field") {
            Some(TypeJson::Text(msg)) => assert_eq!(msg, "hello World"),
            _ => assert!(false),
        },
        _ => assert!(false),
    }

    match root
        .get("key2")
        .and_then(|obj| obj.as_object())
        .and_then(|obj| obj.get("key-sub-1"))
        .and_then(|obj| obj.as_object())
        .and_then(|obj| obj.get("field"))
    {
        Some(TypeJson::Text(msg)) => assert_eq!(msg, "hello World 2"),
        _ => assert!(false),
    }

    assert_eq!(
        "hello World 2",
        root.get("key2")
            .and_then(|obj| obj.as_object())
            .and_then(|obj| obj.get("key-sub-1"))
            .and_then(|obj| obj.as_object())
            .and_then(|obj| obj.get("field"))
            .and_then(|obj| obj.as_text())
            .unwrap()
    );
}

#[test]
fn edit_list() {
    let mut root = array();
    let mut obj1 = object();
    obj1.set("key1", text("value1"));

    root.add(TypeJson::from(obj1));
    root.add(text("second"));
    assert!(root.get(0).is_some());

    match root.get(0) {
        Some(TypeJson::Object(obj)) => match obj.get("key1") {
            Some(TypeJson::Text(msg)) => assert_eq!(msg, "value1"),
            _ => unreachable!(),
        },
        _ => unreachable!(),
    }

    match root.get(1) {
        Some(TypeJson::Text(msg)) => assert_eq!(msg, "second"),
        _ => assert!(false),
    }
}

#[test]
fn null_number() {
    let mut root = object();
    root.set("key1", TypeJson::from(null()));

    match root.get("key1") {
        Some(TypeJson::Null) => assert!(true),
        _ => assert!(false),
    }
}

#[test]
fn reader_json() {
    let mut root = object();
    let node = root.object("k1");
    node.set("n1", text("value1"));
    node.set("n2", text("value2"));
    let node = root.object("k2");
    node.set("n3", text("value1"));
    node.set("n4", text("value2"));
    let node = node.object("k3");
    node.set("n5", text("value-sub1"));
    let list = node.list("n6");
    list.add(text("message-1"));
    list.add(text("message-2"));
    let obj = list.object();
    obj.set("k1", text("v1"));
    let array = list.list();
    array.add(text("v1"));

    let root = TypeJson::from(root);
    let reader = ReaderJson::new(&root);
    assert_eq!(
        Some("value-sub1"),
        reader.field("k2").field("k3").field("n5").json().as_text()
    );
    assert_eq!(
        Some("message-2"),
        reader
            .field("k2")
            .field("k3")
            .field("n6")
            .index(1)
            .json()
            .as_text()
    );

    assert_eq!(Some("message-2"), reader.path(".k2.k3.n6[1]").json().as_text());
}

#[test]
fn reader_safety() {
    // a missing or mismatched segment yields the null sentinel, not a failure
    let input = chars("{\"a\":{\"b\":[1,2]}}");
    let root = TypeJson::from(parser(&input).unwrap());
    let reader = ReaderJson::new(&root);
    assert!(reader.path(".a.missing.deep[3]").json().is_null());
    assert!(reader.path(".a.b.c").json().is_null());
    assert!(reader.path(".a.b[9]").json().is_null());
    assert!(reader.field("a").field("b").index(0).field("x").json().is_null());
    // a malformed path also degrades to the null sentinel
    assert!(reader.path(".a..b").json().is_null());
    // while path_check reports it
    assert!(reader.path_check(".a..b").is_err());
    assert!(reader.path_check(".a.b").is_ok());
}

#[test]
fn json_to_string() {
    let mut root = object();
    let node = root.object("k1");
    node.set("n1", text("value1"));

    assert_eq!("{\"k1\":{\"n1\":\"value1\"}}", root.to_string());

    let mut root = object();
    let node = root.list("k1");
    node.add(TypeJson::Number(Number::new(
        false,
        String::from("12"),
        Some(String::from("1")),
        None,
    )));

    assert_eq!("{\"k1\":[12.1]}", root.to_string());
}

#[test]
fn bool_json() {
    let mut root = object();
    root.set("k", TypeJson::from(true));
    match root.get("k").unwrap() {
        TypeJson::Boolean(bl) => assert!(bl),
        _ => assert!(false),
    }
}

#[test]
fn traverse_test() {
    let mut root = object();
    let node = root.object("k1");
    node.set("n1", text("value1"));
    node.set("n2", text("value2"));
    let node = root.object("k2");
    node.set("n3", text("value1"));
    node.set("n4", text("value2"));
    let node = node.object("k3");
    node.set("n5", text("value-sub1"));
    let list = node.list("n6");
    list.add(text("message-1"));
    list.add(text("message-2"));
    let obj = list.object();
    obj.set("k1", text("v1"));
    let array = list.list();
    array.add(text("v1"));

    assert_eq!(
        "message-2",
        TypeJson::from(root)
            .traverse(".k2.k3.n6[1]")
            .unwrap()
            .as_text()
            .unwrap()
    )
}

#[test]
fn traverse_errors() {
    let input = chars("{\"a\":{\"b\":[1]}}");
    // a missing key is an explicit error
    let root = TypeJson::from(parser(&input).unwrap());
    assert_eq!(Err(String::from("Unable to traverse")), root.traverse(".a.x").map(|_| ()));
    // an out-of-range index is an explicit error
    let root = TypeJson::from(parser(&input).unwrap());
    assert_eq!(Err(String::from("Unable to traverse")), root.traverse(".a.b[5]").map(|_| ()));
    // stepping into a scalar is an explicit error
    let root = TypeJson::from(parser(&input).unwrap());
    assert_eq!(
        Err(String::from("Unable to traverse")),
        root.traverse(".a.b[0].k").map(|_| ())
    );
    // a malformed path reports the tokenizer's message
    let root = TypeJson::from(parser(&input).unwrap());
    assert_eq!(
        Err(String::from("Invalid starter character. Valid: /")),
        root.traverse("a").map(|_| ())
    );
}

#[test]
fn escape_render() {
    assert_eq!("\"plain\"", string_to_json_escape("plain"));
    assert_eq!(
        "\"a\\\"b\\\\c\\nd\\re\\tf\"",
        string_to_json_escape("a\"b\\c\nd\re\tf")
    );
    assert_eq!("\"\"", string_to_json_escape(""));
}

#[test]
fn escape_round_trip() {
    // a text with every escaped character survives serialize-then-parse
    let mut root = object();
    root.set("k", text("a\"b\\c\nd\re\tf"));
    let rendered = root.to_string();
    let reparsed = parser(&chars(&rendered)).unwrap();
    assert_eq!("a\"b\\c\nd\re\tf", reparsed.get("k").unwrap().as_text().unwrap());
}

#[test]
fn document_round_trip() {
    // serialize a built document, parse it back, serialize again
    let mut root = object();
    root.set("t", text("hello"));
    root.set("n", TypeJson::Number(Number::new(true, String::from("12"), Some(String::from("25")), None)));
    root.set("b", TypeJson::from(false));
    root.set("z", TypeJson::from(null()));
    let inner = root.object("o");
    inner.set("k", text("v"));
    let items = root.list("l");
    items.add(text("x"));
    items.add(TypeJson::from(true));
    items.add(TypeJson::Number(Number::new(false, String::from("0"), None, None)));

    let rendered = root.to_string();
    assert_eq!(
        "{\"t\":\"hello\",\"n\":-12.25,\"b\":false,\"z\":null,\"o\":{\"k\":\"v\"},\"l\":[\"x\",true,0]}",
        rendered
    );
    let reparsed = parser(&chars(&rendered)).unwrap();
    assert_eq!(rendered, reparsed.to_string());
}

#[test]
fn nesting_remove() {
    // read a nested path, remove the subtree above it, and see it vanish
    let input = chars("{\"a\":{\"b\":{\"c\":\"v\"}}}");
    let root = TypeJson::from(parser(&input).unwrap());
    let reader = ReaderJson::new(&root);
    assert_eq!(Some("v"), reader.path(".a.b.c").json().as_text());

    let mut doc = parser(&input).unwrap();
    let removed = doc
        .get_mut("a")
        .unwrap()
        .as_object_mut()
        .unwrap()
        .remove("b");
    assert!(removed.is_some());
    assert_eq!("{\"a\":{}}", doc.to_string());
}

#[test]
fn set_overwrites() {
    let mut root = object();
    root.set("k", text("first"));
    root.set("k", text("second"));
    assert_eq!("second", root.get("k").unwrap().as_text().unwrap());
    assert_eq!(1, root.keys().len());
    assert_eq!("k", root.keys()[0]);
    assert!(root.remove("k").is_some());
    assert!(root.get("k").is_none());
    assert!(root.remove("k").is_none());
}

#[test]
fn list_edit() {
    let mut l = array();
    l.add(text("a"));
    l.add(text("b"));
    l.add(text("c"));
    assert_eq!(3, l.len());
    let removed = l.remove(1);
    assert_eq!(Some("b"), removed.as_text());
    assert_eq!(2, l.len());
    assert_eq!(Some("c"), l.get(1).unwrap().as_text());
    let popped = l.pop();
    assert_eq!(Some("c"), popped.as_ref().and_then(|t| t.as_text()));
    assert_eq!(1, l.len());
    if let Some(t) = l.get_mut(0) {
        *t = text("z");
    }
    assert_eq!("[\"z\"]", l.to_string());
}

#[test]
fn accessor_mismatches() {
    let t = text("x");
    assert!(t.as_object().is_none());
    assert!(t.as_list().is_none());
    assert!(t.as_number().is_none());
    assert!(t.as_bool().is_none());
    assert!(!t.is_null());
    assert!(t.as_text().is_some());

    let mut n = TypeJson::Number(Number::new(false, String::from("7"), None, None));
    assert!(n.as_number_mut().is_some());
    assert!(n.as_text_mut().is_none());
    match TypeJson::from(true).as_bool() {
        Some(b) => assert!(*b),
        None => assert!(false),
    }
}

#[test]
fn number_render() {
    assert_eq!(
        "0.5",
        Number::new(false, String::from("0"), Some(String::from("5")), None).to_string()
    );
    assert_eq!("-120", Number::new(true, String::from("120"), None, None).to_string());
    assert_eq!("e2", NumberExponent::new(2).to_string());
    assert_eq!("e-2", NumberExponent::new(-2).to_string());
    assert_eq!(
        "11.234e2",
        Number::new(
            false,
            String::from("11"),
            Some(String::from("234")),
            Some(NumberExponent::new(2)),
        )
        .to_string()
    );
    assert_eq!(
        "11.234e-2",
        Number::new(
            false,
            String::from("11"),
            Some(String::from("234")),
            Some(NumberExponent::new(-2)),
        )
        .to_string()
    );
}

#[test]
fn object_iter_and_keys() {
    let mut root = object();
    root.set("a", text("1"));
    root.set("b", text("2"));
    let keys = root.keys();
    assert_eq!(vec![String::from("a"), String::from("b")], keys);
    let entries = root.iter();
    assert_eq!(2, entries.len());
    assert_eq!("a", entries[0].0);
    assert_eq!(Some("2"), entries[1].1.as_text());
    let l = {
        let mut l = array();
        l.add(text("only"));
        l
    };
    assert_eq!(Some("only"), l.iter()[0].as_text());
}
