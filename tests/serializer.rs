use instant_xml::{escape, unescape, Context, Error, Prefix, Serializer};

fn frame1(default_ns: &'static str, prefix: &'static str, ns: &'static str) -> Context<1> {
    Context { default_ns, prefixes: [Prefix { prefix, ns }] }
}

#[test]
fn new_writer_is_empty() {
    let ser = Serializer::new(String::from("head"));
    assert_eq!(ser.output(), "head");
    assert_eq!(ser.default_ns(), "");
    assert_eq!(ser.prefix("any"), None);
}

#[test]
fn start_in_default_namespace_has_no_namespace_token() {
    let mut ser = Serializer::new(String::new());
    assert_eq!(ser.write_start("a", "", false), Ok(None));
    assert_eq!(ser.output(), "<a");
    let mut ser = Serializer::new(String::new());
    assert_eq!(ser.write_start("a", "", true), Ok(None));
    assert_eq!(ser.output(), "<a");
}

#[test]
fn start_in_other_namespace_declares_default() {
    let mut ser = Serializer::new(String::new());
    assert_eq!(ser.write_start("a", "urn:x", false), Ok(None));
    assert_eq!(ser.output(), "<a xmlns=\"urn:x\"");
}

#[test]
fn scalar_start_reuses_bound_prefix() {
    let mut ser = Serializer::new(String::new());
    ser.write_start("root", "", false).unwrap();
    let saved = ser.push(frame1("", "x", "urn:x")).unwrap();
    assert_eq!(ser.output(), "<root xmlns:x=\"urn:x\"");
    ser.end_start().unwrap();
    assert_eq!(ser.write_start("leaf", "urn:x", true), Ok(Some("x")));
    ser.end_start().unwrap();
    ser.write_str("1").unwrap();
    ser.write_close(Some("x"), "leaf").unwrap();
    // A non-scalar element declares the namespace as its default instead.
    assert_eq!(ser.write_start("node", "urn:x", false), Ok(None));
    ser.end_start().unwrap();
    ser.write_close(None, "node").unwrap();
    ser.pop(saved);
    ser.write_close(None, "root").unwrap();
    assert_eq!(
        ser.into_output(),
        "<root xmlns:x=\"urn:x\"><x:leaf>1</x:leaf><node xmlns=\"urn:x\"></node></root>",
    );
}

#[test]
fn push_reuses_existing_prefix() {
    let mut ser = Serializer::new(String::new());
    ser.write_start("root", "", false).unwrap();
    let outer = ser.push(frame1("", "x", "urn:x")).unwrap();
    ser.end_start().unwrap();
    ser.write_start("child", "", false).unwrap();
    let inner = ser.push(frame1("", "y", "urn:x")).unwrap();
    assert_eq!(ser.prefix("urn:x"), Some("x"));
    ser.end_start().unwrap();
    assert_eq!(ser.write_start("leaf", "urn:x", true), Ok(Some("x")));
    ser.end_start().unwrap();
    ser.write_close(Some("x"), "leaf").unwrap();
    ser.pop(inner);
    assert_eq!(ser.prefix("urn:x"), Some("x"));
    ser.write_close(None, "child").unwrap();
    ser.pop(outer);
    assert_eq!(ser.prefix("urn:x"), None);
    ser.write_close(None, "root").unwrap();
    assert_eq!(
        ser.into_output(),
        "<root xmlns:x=\"urn:x\"><child><x:leaf></x:leaf></child></root>",
    );
}

#[test]
fn scope_balance_restores_table_and_default() {
    let mut ser = Serializer::new(String::new());
    ser.write_start("root", "", false).unwrap();
    let outer = ser
        .push(Context::<2> {
            default_ns: "urn:d",
            prefixes: [Prefix { prefix: "a", ns: "urn:a" }, Prefix { prefix: "b", ns: "urn:b" }],
        })
        .unwrap();
    assert_eq!(outer.default_ns, "");
    assert_eq!(outer.prefixes[0].ns, "urn:a");
    assert_eq!(outer.prefixes[0].prefix, "");
    assert_eq!(outer.prefixes[1].ns, "urn:b");
    assert_eq!(ser.default_ns(), "urn:d");
    assert_eq!(ser.prefix("urn:a"), Some("a"));
    assert_eq!(ser.prefix("urn:b"), Some("b"));
    ser.end_start().unwrap();
    ser.write_start("inner", "urn:d", false).unwrap();
    let inner = ser.push(frame1("urn:e", "c", "urn:c")).unwrap();
    assert_eq!(ser.prefix("urn:c"), Some("c"));
    ser.pop(inner);
    assert_eq!(ser.prefix("urn:c"), None);
    assert_eq!(ser.default_ns(), "urn:d");
    ser.end_start().unwrap();
    ser.write_close(None, "inner").unwrap();
    ser.pop(outer);
    assert_eq!(ser.default_ns(), "");
    assert_eq!(ser.prefix("urn:a"), None);
    assert_eq!(ser.prefix("urn:b"), None);
    ser.write_close(None, "root").unwrap();
    assert_eq!(
        ser.into_output(),
        "<root xmlns:a=\"urn:a\" xmlns:b=\"urn:b\"><inner xmlns:c=\"urn:c\"></inner></root>",
    );
}

#[test]
fn push_skips_blank_slots() {
    let mut ser = Serializer::new(String::new());
    ser.write_start("root", "", false).unwrap();
    let saved = ser.push(Context::<3>::default()).unwrap();
    assert_eq!(ser.output(), "<root");
    assert_eq!(saved.prefixes[0].ns, "");
    ser.pop(saved);
    assert_eq!(ser.prefix(""), None);
}

#[test]
fn pop_rebinds_a_saved_prefix() {
    let mut ser = Serializer::new(String::new());
    ser.write_start("root", "", false).unwrap();
    let _saved = ser.push(frame1("", "x", "urn:x")).unwrap();
    ser.pop(frame1("", "z", "urn:x"));
    assert_eq!(ser.prefix("urn:x"), Some("z"));
}

#[test]
fn push_outside_start_tag_fails() {
    let mut ser = Serializer::new(String::new());
    assert!(matches!(ser.push(frame1("", "x", "urn:x")), Err(Error::UnexpectedState)));
    assert_eq!(ser.output(), "");
    assert_eq!(ser.prefix("urn:x"), None);
}

#[test]
fn write_attr_in_element_state_fails() {
    let mut ser = Serializer::new(String::from("<a>"));
    assert_eq!(ser.write_attr("k", "", "v"), Err(Error::UnexpectedState));
    assert_eq!(ser.output(), "<a>");
}

#[test]
fn write_attr_forms() {
    let mut ser = Serializer::new(String::new());
    ser.write_start("a", "", false).unwrap();
    let saved = ser.push(frame1("", "x", "urn:x")).unwrap();
    assert_eq!(ser.write_attr("k", "", &escape("1<2")), Ok(()));
    assert_eq!(ser.write_attr("k", "urn:x", "v"), Ok(()));
    assert_eq!(ser.write_attr("k", "urn:none", "v"), Err(Error::UnexpectedState));
    ser.end_start().unwrap();
    ser.pop(saved);
    ser.write_close(None, "a").unwrap();
    assert_eq!(ser.into_output(), "<a xmlns:x=\"urn:x\" k=\"1&lt;2\" x:k=\"v\"></a>");
}

#[test]
fn state_errors() {
    let mut ser = Serializer::new(String::new());
    assert_eq!(ser.end_start(), Err(Error::UnexpectedState));
    ser.write_start("a", "", false).unwrap();
    assert_eq!(ser.write_start("b", "", false), Err(Error::UnexpectedState));
    assert_eq!(ser.write_str("t"), Err(Error::UnexpectedState));
    assert_eq!(ser.write_close(None, "a"), Err(Error::UnexpectedState));
    assert_eq!(ser.output(), "<a");
    ser.end_start().unwrap();
    assert_eq!(ser.write_str("t"), Ok(()));
    assert_eq!(ser.write_close(Some("p"), "a"), Ok(()));
    assert_eq!(ser.into_output(), "<a>t</p:a>");
}

#[test]
fn escape_exact_values() {
    assert_eq!(escape(""), "");
    assert_eq!(escape("plain text"), "plain text");
    assert_eq!(escape("&"), "&amp;");
    assert_eq!(escape("<>"), "&lt;&gt;");
    assert_eq!(escape("\"'"), "&quot;&apos;");
    assert_eq!(escape("a&b<c"), "a&amp;b&lt;c");
    assert_eq!(escape("é<ü"), "é&lt;ü");
}

#[test]
fn unescape_values() {
    assert_eq!(unescape(""), Some(String::new()));
    assert_eq!(unescape("a&lt;b&gt;c"), Some(String::from("a<b>c")));
    assert_eq!(unescape("&apos;&quot;&amp;"), Some(String::from("'\"&")));
    assert_eq!(unescape("&unknown;"), None);
    assert_eq!(unescape("&"), None);
    assert_eq!(unescape("&lt"), None);
}

#[test]
fn escape_round_trip_values() {
    for s in ["", "x", "&amp;", "<a href=\"x\">it's</a>", "&&<<>>", "ünï&cödé"] {
        assert_eq!(unescape(&escape(s)), Some(String::from(s)));
    }
}

#[test]
fn binding_to_empty_namespace_is_skipped() {
    let mut ser = Serializer::new(String::new());
    ser.write_start("root", "", false).unwrap();
    let saved = ser.push(frame1("", "p", "")).unwrap();
    assert_eq!(ser.output(), "<root");
    assert_eq!(ser.prefix(""), None);
    assert_eq!(saved.prefixes[0].prefix, "");
    assert_eq!(saved.prefixes[0].ns, "");
    ser.pop(saved);
    assert_eq!(ser.prefix(""), None);
}

#[test]
fn sibling_scopes_declare_again() {
    let mut ser = Serializer::new(String::new());
    ser.write_start("root", "", false).unwrap();
    ser.end_start().unwrap();
    for _ in 0..2 {
        ser.write_start("child", "", false).unwrap();
        let saved = ser.push(frame1("", "x", "urn:x")).unwrap();
        assert_eq!(ser.prefix("urn:x"), Some("x"));
        ser.end_start().unwrap();
        ser.pop(saved);
        assert_eq!(ser.prefix("urn:x"), None);
        ser.write_close(None, "child").unwrap();
    }
    ser.write_close(None, "root").unwrap();
    assert_eq!(
        ser.into_output(),
        "<root><child xmlns:x=\"urn:x\"></child><child xmlns:x=\"urn:x\"></child></root>",
    );
}

#[test]
fn two_levels_with_shared_and_repeated_namespaces() {
    let mut ser = Serializer::new(String::new());
    ser.write_start("root", "", false).unwrap();
    let outer = ser
        .push(Context::<2> {
            default_ns: "urn:d",
            prefixes: [Prefix { prefix: "a", ns: "urn:a" }, Prefix { prefix: "e", ns: "" }],
        })
        .unwrap();
    ser.end_start().unwrap();
    ser.write_start("inner", "urn:d", false).unwrap();
    let inner = ser
        .push(Context::<3> {
            default_ns: "urn:i",
            prefixes: [
                Prefix { prefix: "b", ns: "urn:a" },
                Prefix { prefix: "c", ns: "urn:c" },
                Prefix { prefix: "c2", ns: "urn:c" },
            ],
        })
        .unwrap();
    assert_eq!(ser.prefix("urn:a"), Some("a"));
    assert_eq!(ser.prefix("urn:c"), Some("c"));
    ser.end_start().unwrap();
    ser.pop(inner);
    ser.write_close(None, "inner").unwrap();
    ser.pop(outer);
    assert_eq!(ser.default_ns(), "");
    assert_eq!(ser.prefix("urn:a"), None);
    assert_eq!(ser.prefix("urn:c"), None);
    assert_eq!(ser.prefix(""), None);
    ser.write_close(None, "root").unwrap();
    assert_eq!(
        ser.into_output(),
        "<root xmlns:a=\"urn:a\"><inner xmlns:c=\"urn:c\"></inner></root>",
    );
}
