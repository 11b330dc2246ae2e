use json_automa::is_char;
use json_automa::is_number;
use json_automa::is_space;
use json_automa::parser;
use json_automa::ArrayAutoma;
use json_automa::Automa;
use json_automa::KeyParseQueryAutoma;
use json_automa::KeyParseQueryToken;
use json_automa::NumberAutoma;
use json_automa::ObjectAutoma;
use json_automa::StoreBufferIterator;
use json_automa::StrAutoma;
use json_automa::StringAutoma;
use json_automa::TypeJson;

fn chars(s: &str) -> Vec<char> {
    s.chars().collect()
}

fn as_f32(t: &json_automa::Number) -> f32 {
    t.to_string().parse().unwrap()
}

#[test]
fn is_space_test() {
    assert!(is_space(' '));
    assert!(is_space('\t'));
    assert!(is_space('\r'));
    assert!(is_space('\n'));
}

#[test]
fn char_classes() {
    assert!(!is_space('x'));
    assert!(is_number('0') && is_number('9') && !is_number('a'));
    assert!(is_char('a') && is_char('Z') && !is_char('1') && !is_char('_'));
}

#[test]
fn str_automa() {
    let str_automa = StrAutoma::new();
    let input = chars("\"input_automa\"");

    if let Ok((msg, _)) = str_automa.start(&input, 0) {
        assert_eq!("input_automa", msg);
    } else {
        assert!(false);
    }

    let input = chars("\"input_automa\": 1234");
    let (result, next) = str_automa.start(&input, 0).unwrap();
    let rest: String = input[next..].iter().collect();

    assert_eq!("input_automa", result);
    assert_eq!(": 1234", rest);

    let input = chars("\"\\n\\\"\"");
    match str_automa.start(&input, 0) {
        Ok((msg, _)) => assert_eq!("\n\"", msg),
        _ => assert!(false),
    }
}

#[test]
fn str_automa_errors() {
    let str_automa = StrAutoma::new();
    let input = chars("\"no end");
    match str_automa.start(&input, 0) {
        Err(e) => assert_eq!("End Str iterator", e.source().message()),
        _ => assert!(false),
    }

    let input = chars("x\"");
    match str_automa.start(&input, 0) {
        Err(e) => assert_eq!("Invalid char in node n1", e.source().message()),
        _ => assert!(false),
    }

    let input = chars("\"bad \\x escape\"");
    match str_automa.start(&input, 0) {
        Err(e) => assert_eq!("Invalid escape", e.source().message()),
        _ => assert!(false),
    }
}

#[test]
fn json_automa() {
    let json_autom = ObjectAutoma::new();
    let input = chars("{\"key\":\"input_automa\"}");

    match json_autom.start(&input, 0) {
        Ok((json_object, _)) => {
            assert_eq!(
                "input_automa",
                if let Some(TypeJson::Text(msg)) = json_object.get("key") {
                    msg.as_str()
                } else {
                    "none"
                }
            );
        }
        Err(_) => {
            assert!(false);
        }
    }

    let input = chars("{\"key1\":\"input_automa_1\",\"key2\":\"input_automa_2\"}");

    match json_autom.start(&input, 0) {
        Ok((json_object, _)) => {
            assert_eq!(
                "input_automa_1",
                json_object.get("key1").unwrap().as_text().unwrap()
            );
            assert_eq!(
                "input_automa_2",
                json_object.get("key2").unwrap().as_text().unwrap()
            );
        }
        Err(_) => {
            assert!(false);
        }
    }

    let input = chars("{  \"key1\" \t : \n \"input_automa_1\"  \t,\r \"key2\":\"input_automa_2\"}");

    match json_autom.start(&input, 0) {
        Ok((json_object, _)) => {
            assert_eq!(
                "input_automa_1",
                json_object.get("key1").unwrap().as_text().unwrap()
            );
            assert_eq!(
                "input_automa_2",
                json_object.get("key2").unwrap().as_text().unwrap()
            );
        }
        Err(_) => {
            assert!(false);
        }
    }

    let input = chars("{\"key1\":\"input_automa_1\",\"key2\":{\"key\":\"input_automa\"}}");

    match json_autom.start(&input, 0) {
        Ok((json_object, _)) => {
            assert_eq!(
                "input_automa_1",
                json_object.get("key1").unwrap().as_text().unwrap()
            );
            let jo = json_object.get("key2").unwrap();
            match jo {
                TypeJson::Object(v) => match v.get("key") {
                    Some(TypeJson::Text(msg)) => assert_eq!("input_automa", msg),
                    _ => unreachable!(),
                },
                _ => unreachable!(),
            }
        }
        Err(_) => {
            assert!(false);
        }
    }

    let input = chars("{\"key1\":\"input_automa_1\",\"key2\": null}");

    match json_autom.start(&input, 0) {
        Ok((json_object, _)) => {
            assert_eq!(
                "input_automa_1",
                json_object.get("key1").unwrap().as_text().unwrap()
            );
            assert_eq!(
                "null",
                if let Some(TypeJson::Null) = json_object.get("key2") {
                    "null"
                } else {
                    "none"
                }
            );
        }
        Err(_) => {
            assert!(false);
        }
    }

    let input = chars("{\"key1\":\"input_automa_1\",\"key2\": 33.2}");

    match json_autom.start(&input, 0) {
        Ok((json_object, _)) => {
            assert_eq!(
                "input_automa_1",
                json_object.get("key1").unwrap().as_text().unwrap()
            );
            assert_eq!(
                33.2,
                if let Some(TypeJson::Number(num)) = json_object.get("key2") {
                    as_f32(num)
                } else {
                    0.0
                }
            );
        }
        Err(_) => {
            assert!(false);
        }
    }

    let input = chars("{\"key1\":\"input_automa_1\",\"key2\": [12]}");

    match json_autom.start(&input, 0) {
        Ok((json_object, _)) => match json_object.get("key2") {
            Some(TypeJson::List(list)) => match list.get(0) {
                Some(TypeJson::Number(num)) => assert_eq!(12.0_f32, as_f32(num)),
                _ => assert!(false),
            },
            _ => assert!(false),
        },
        Err(_) => {
            assert!(false);
        }
    }
}

#[test]
fn json_automa_errors() {
    let json_autom = ObjectAutoma::new();
    for (input, detail) in [
        ("x", "invalid from node: N1"),
        ("{x", "invalid from node: N2"),
        ("{\"k\"x", "invalid from node: N3. Value: x"),
        ("{\"k\":x", "invalid from node: N4"),
        ("{\"k\":1x", "invalid from node: N5"),
        ("{\"k\":1", "invalid json automa"),
        ("", "invalid json automa"),
    ] {
        match json_autom.start(&chars(input), 0) {
            Err(e) => assert_eq!(detail, e.source().message()),
            _ => assert!(false),
        }
    }
}

#[test]
fn string_automa() {
    let input = chars("null");
    let string_automa = StringAutoma::from("null");

    match string_automa.start(&input, 0) {
        Ok(_) => {
            assert!(true);
        }
        _ => assert!(false),
    }

    let input = chars("nullc");
    match string_automa.start(&input, 0) {
        Ok((_, next)) => {
            assert_eq!(Some('c'), input.get(next).copied());
        }
        _ => assert!(false),
    }
}

#[test]
fn string_automa_errors() {
    let string_automa = StringAutoma::from("true");
    match string_automa.start(&chars("trxe"), 0) {
        Err(e) => assert_eq!("Erro String match. Char not equal", e.source().message()),
        _ => assert!(false),
    }
    match string_automa.start(&chars("tr"), 0) {
        Err(e) => assert_eq!("Invalid StringAutoma parse.", e.source().message()),
        _ => assert!(false),
    }
    assert!(string_automa.can_start('t'));
    assert!(!string_automa.can_start('f'));
}

#[test]
fn number_automa() {
    let number_automa = NumberAutoma::new();

    let input = chars("1234.2123");
    match number_automa.start(&input, 0) {
        Ok(((number, _), _)) => assert_eq!(1234.2123, as_f32(&number)),
        _ => assert!(false),
    }

    let input = chars("1234..");
    match number_automa.start(&input, 0) {
        Err(msg) => assert_eq!("Invalid input, default", msg.source().message()),
        _ => assert!(false),
    }

    let input = chars("0.2123");
    match number_automa.start(&input, 0) {
        Ok(((number, _), _)) => assert_eq!(0.2123, as_f32(&number)),
        _ => assert!(false),
    }

    let input = chars("0");
    match number_automa.start(&input, 0) {
        Ok(((number, _), _)) => assert_eq!(0.0, as_f32(&number)),
        _ => assert!(false),
    }

    let input = chars("0.0");
    match number_automa.start(&input, 0) {
        Ok(((number, _), _)) => assert_eq!(0.0, as_f32(&number)),
        _ => assert!(false),
    }

    let input = chars("1234.002123,");
    match number_automa.start(&input, 0) {
        Ok(((number, Some(c)), _)) => {
            assert_eq!(1234.002123, as_f32(&number));
            assert_eq!(',', c);
        }
        _ => assert!(false),
    }

    let input = chars("1234");
    match number_automa.start(&input, 0) {
        Ok(((number, _), _)) => assert_eq!(1234f32, as_f32(&number)),
        _ => assert!(false),
    }

    let input = chars("-1234");
    match number_automa.start(&input, 0) {
        Ok(((number, _), _)) => assert_eq!(-1234f32, as_f32(&number)),
        _ => assert!(false),
    }
}

#[test]
fn number_automa_edges() {
    let number_automa = NumberAutoma::new();
    // a leading zero may only be followed by a decimal point
    match number_automa.start(&chars("05"), 0) {
        Ok(((number, Some(c)), next)) => {
            assert_eq!("0", number.to_string());
            assert_eq!('5', c);
            assert_eq!(1, next);
        }
        _ => assert!(false),
    }
    // a bare minus sign is not a number
    match number_automa.start(&chars("-"), 0) {
        Err(e) => assert_eq!("Invalid number...", e.source().message()),
        _ => assert!(false),
    }
    // a trailing decimal point is not a number
    match number_automa.start(&chars("12."), 0) {
        Err(e) => assert_eq!("Invalid number...", e.source().message()),
        _ => assert!(false),
    }
    assert!(number_automa.can_start('7'));
    assert!(number_automa.can_start('-'));
    assert!(!number_automa.can_start('.'));
}

#[test]
fn array_automa() {
    let array_automa = ArrayAutoma::new();

    let input = chars("[\"Hello, World\", null, 2234.23, {\"key\": \"Value!\"}]");
    let (array, _) = array_automa.start(&input, 0).unwrap();
    match array.get(0) {
        Some(TypeJson::Text(txt)) => assert_eq!("Hello, World", txt),
        _ => assert!(false),
    }
    match array.get(1) {
        Some(TypeJson::Null) => assert!(true),
        _ => assert!(false),
    }
    match array.get(2) {
        Some(TypeJson::Number(num)) => assert_eq!(2234.23_f32, as_f32(num)),
        _ => assert!(false),
    }
    match array.get(3) {
        Some(TypeJson::Object(obj)) => match obj.get("key").unwrap().as_text() {
            Some(msg) => assert_eq!("Value!", msg),
            _ => assert!(false),
        },
        _ => assert!(false),
    }

    let input = chars("[]");
    let (array, _) = array_automa.start(&input, 0).unwrap();
    assert_eq!(0, array.len());
}

#[test]
fn array_automa_errors() {
    let array_automa = ArrayAutoma::new();
    for (input, detail) in [
        ("x", "Invalid ArrayAtm::N1"),
        ("[;]", "Invalid ArrayAtm::N2"),
        ("[1 2]", "Invalid ArrayAtm::N3"),
        ("[1,", "unable to retrieve array"),
    ] {
        match array_automa.start(&chars(input), 0) {
            Err(e) => assert_eq!(detail, e.source().message()),
            _ => assert!(false),
        }
    }
}

#[test]
fn complete_json() {
    let input = chars(
        r###"{
            "name": "Foo",
            "username": "Paa",
            "age": 32.0,
            "valid": true,
            "notValid": false,
            "tags": ["t1", "t2"],
            "sub": {
                "sub2": {
                    "subk": "subv"
                }
            }
        }"###,
    );
    let mut user = parser(&input).unwrap();
    assert_eq!("Foo", user.get("name").unwrap().as_text().unwrap());
    assert_eq!("Paa", user.get("username").unwrap().as_text().unwrap());
    assert_eq!(
        32.0_f32,
        as_f32(user.get("age").unwrap().as_number().unwrap())
    );
    assert_eq!(true, *user.get("valid").unwrap().as_bool().unwrap());
    assert_eq!(false, *user.get("notValid").unwrap().as_bool().unwrap());
    let tags = user.get("tags").unwrap().as_list().unwrap();
    assert_eq!("t1", tags.get(0).unwrap().as_text().unwrap());
    assert_eq!("t2", tags.get(1).unwrap().as_text().unwrap());

    match user.remove("tags") {
        Some(TypeJson::List(list)) => assert_eq!(Some("t2"), list.get(1).unwrap().as_text()),
        _ => assert!(false),
    }

    assert_eq!(
        "subv",
        TypeJson::from(user)
            .traverse(".sub.sub2.subk")
            .unwrap()
            .as_text()
            .unwrap()
    );

    let input = chars(
        r##"{"key": error
        "##,
    );
    let error = parser(&input).err().unwrap();
    assert_eq!("Stream read: {\"key\": e", error.to_string())
}

#[test]
fn parser_query() {
    let query = chars(".key.field[1][2].name.field1.000[001].\"txt_!!\u{a3}\"[33]");
    let mut parser = KeyParseQueryAutoma::new(&query);
    assert_key("key", &mut parser);
    assert_key("field", &mut parser);
    assert_index(1, &mut parser);
    assert_index(2, &mut parser);
    assert_key("name", &mut parser);
    assert_key("field1", &mut parser);
    assert_key("000", &mut parser);
    assert_index(1, &mut parser);
    assert_key("txt_!!\u{a3}", &mut parser);
    assert_index(33, &mut parser);
}

fn assert_key(expected: &str, parser: &mut KeyParseQueryAutoma) {
    match parser.next() {
        Some(KeyParseQueryToken::Key(key)) => assert_eq!(expected, key),
        _ => assert!(false),
    }
}

fn assert_index(expected: usize, parser: &mut KeyParseQueryAutoma) {
    match parser.next() {
        Some(KeyParseQueryToken::Index(index)) => assert_eq!(expected, index),
        _ => assert!(false),
    }
}

#[test]
fn parser_query_errors() {
    let query = chars("x");
    let mut p = KeyParseQueryAutoma::new(&query);
    match p.next() {
        Some(KeyParseQueryToken::Error(m)) => {
            assert_eq!("Invalid starter character. Valid: /", m)
        }
        _ => assert!(false),
    }

    let query = chars(".!");
    let mut p = KeyParseQueryAutoma::new(&query);
    match p.next() {
        Some(KeyParseQueryToken::Error(m)) => {
            assert_eq!("Invalid key string reference. Valid: char", m)
        }
        _ => assert!(false),
    }

    let query = chars("[x]");
    let mut p = KeyParseQueryAutoma::new(&query);
    match p.next() {
        Some(KeyParseQueryToken::Error(m)) => assert_eq!("Invalid key index reference.", m),
        _ => assert!(false),
    }

    let query = chars("[1");
    let mut p = KeyParseQueryAutoma::new(&query);
    match p.next() {
        Some(KeyParseQueryToken::Error(m)) => assert_eq!("Invalid EOF status", m),
        _ => assert!(false),
    }

    // an index too large for the machine yields an error token
    let query = chars("[99999999999999999999999999]");
    let mut p = KeyParseQueryAutoma::new(&query);
    match p.next() {
        Some(KeyParseQueryToken::Error(m)) => {
            assert_eq!("number too large to fit in target type", m)
        }
        _ => assert!(false),
    }
}

#[test]
fn parser_query_eof_key() {
    // a bare key ending with the input still yields its token
    let query = chars(".last");
    let mut p = KeyParseQueryAutoma::new(&query);
    assert_key("last", &mut p);
    assert!(p.next().is_none());
    assert!(p.next().is_none());
}

#[test]
fn buffer_store() {
    let mut input = StoreBufferIterator::new(10, "text".chars().collect());

    assert_eq!('t', input.next().unwrap());
    assert_eq!('e', input.next().unwrap());

    assert_eq!("te", input.into_iter().iter().collect::<String>());
}

#[test]
fn buffer_store_overflow() {
    // the buffer keeps only the tail of a long input
    let mut input = StoreBufferIterator::new(10, "abcdefghijklmnop".chars().collect());
    while input.next().is_some() {}
    assert_eq!("hijklmnop", input.into_iter().iter().collect::<String>());
}

#[test]
fn whitespace_insensitive_parse() {
    // the same tokens, spaced differently, give the same document
    let a = chars("{\"a\":[1,{\"b\":true}],\"c\":null}");
    let b = chars("{ \"a\" : [ 1 , { \"b\" : true } ] ,\t\"c\"\n:\r null }");
    let da = parser(&a).unwrap();
    let db = parser(&b).unwrap();
    assert_eq!(da.to_string(), db.to_string());
}

#[test]
fn leading_whitespace_rejected() {
    // the top-level object must begin at the first character
    let input = chars(" {}");
    assert!(parser(&input).is_err());
    let input = chars("{}");
    assert!(parser(&input).is_ok());
}

#[test]
fn negative_number_in_document() {
    // a negative value round-trips through a document
    let input = chars("{\"n\":-5.25}");
    let doc = parser(&input).unwrap();
    assert_eq!(-5.25_f32, as_f32(doc.get("n").unwrap().as_number().unwrap()));
    assert_eq!("{\"n\":-5.25}", doc.to_string());
}

#[test]
fn duplicate_key_overwrites() {
    // the last value set for a key wins
    let input = chars("{\"a\":1,\"a\":2}");
    let doc = parser(&input).unwrap();
    assert_eq!("2", doc.get("a").unwrap().as_number().unwrap().to_string());
    assert_eq!(1, doc.keys().len());
}

#[test]
fn trailing_input_not_read() {
    // the parser stops at the closing brace of the top-level object
    let input = chars("{\"a\":true}garbage");
    let doc = parser(&input).unwrap();
    assert_eq!(true, *doc.get("a").unwrap().as_bool().unwrap());
}

#[test]
fn empty_object_parses() {
    let input = chars("{}");
    let doc = parser(&input).unwrap();
    assert_eq!("{}", doc.to_string());
    assert_eq!(0, doc.keys().len());
}

#[test]
fn automata_dispatch() {
    assert!(ObjectAutoma::new().can_start('{'));
    assert!(!ObjectAutoma::new().can_start('['));
    assert!(ArrayAutoma::new().can_start('['));
    assert!(StrAutoma::new().can_start('"'));
    assert!(!StrAutoma::new().can_start('x'));
}
