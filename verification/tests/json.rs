use filmreel::document::Doc;
use filmreel::error::{render_path, FrError, PathStep};
use filmreel::frame::{Frame, Request, Response};
use filmreel::json::{is_supported, parse_document};
use filmreel::number::{decimal_text, parse_u32};

fn text(s: &str) -> Doc {
    Doc::Text(s.to_string())
}

fn number(s: &str) -> Doc {
    Doc::Number(s.to_string())
}

fn object(fields: Vec<(&str, Doc)>) -> Doc {
    Doc::Object(fields.into_iter().map(|(k, v)| (k.to_string(), v)).collect())
}

#[test]
fn json_text_is_read_as_a_document() {
    let doc = parse_document(
        r#" {"z": [1, -2, 3.5, "s", true, false, null, {}], "a": {"n": 1e2, "t": "é\n"}} "#,
    )
    .unwrap();
    assert_eq!(
        doc,
        object(vec![
            (
                "z",
                Doc::Array(vec![
                    number("1"),
                    number("-2"),
                    number("3.5"),
                    text("s"),
                    Doc::Bool(true),
                    Doc::Bool(false),
                    Doc::Null,
                    object(vec![]),
                ])
            ),
            ("a", object(vec![("n", number("100.0")), ("t", text("\u{e9}\n"))])),
        ])
    );
    assert_eq!(parse_document("\"just text\""), Ok(text("just text")));
    assert_eq!(parse_document("0"), Ok(number("0")));
}

#[test]
fn what_is_not_json_is_refused() {
    for bad in ["", "{", "[1,]", "{\"a\": }", "nul", "1 2", "'single'"] {
        assert_eq!(parse_document(bad), Err(FrError::Parse), "{}", bad);
    }
}

#[test]
fn expressions_with_an_index_are_not_supported() {
    assert!(is_supported(r#""body"."session_id""#));
    assert!(is_supported(""));
    assert!(is_supported(r#""a","b""#));
    assert!(!is_supported(r#""list".[0]"#));
    assert!(!is_supported("["));
    assert!(!is_supported(r#""a[b""#));
}

#[test]
fn whole_numbers_are_read_from_decimal_text() {
    assert_eq!(parse_u32("0"), Some(0));
    assert_eq!(parse_u32("7"), Some(7));
    assert_eq!(parse_u32("200"), Some(200));
    assert_eq!(parse_u32("4294967295"), Some(u32::MAX));
    assert_eq!(parse_u32("4294967296"), None);
    assert_eq!(parse_u32("99999999999999999999999999"), None);
    for bad in ["", "007", "00", "-1", "+1", "1.0", "1e2", " 1", "1 ", "٣", "0x10"] {
        assert_eq!(parse_u32(bad), None, "{}", bad);
    }
}

#[test]
fn whole_numbers_are_written_as_decimal_text() {
    assert_eq!(decimal_text(0), "0");
    assert_eq!(decimal_text(9), "9");
    assert_eq!(decimal_text(10), "10");
    assert_eq!(decimal_text(201), "201");
    assert_eq!(decimal_text(u64::MAX), "18446744073709551615");
    for n in [0u32, 1, 99, 100, 65535, u32::MAX] {
        assert_eq!(parse_u32(&decimal_text(n as u64)), Some(n));
    }
}

#[test]
fn paths_are_written_step_by_step() {
    assert_eq!(render_path(&vec![]), ".");
    assert_eq!(render_path(&vec![PathStep::Field("status".to_string())]), ".status");
    assert_eq!(
        render_path(&vec![
            PathStep::Field("body".to_string()),
            PathStep::Field("items".to_string()),
            PathStep::Index(12),
            PathStep::Index(0),
            PathStep::Field("id".to_string()),
        ]),
        ".body.items[12][0].id"
    );
}

#[test]
fn every_error_says_what_went_wrong() {
    assert_eq!(FrError::Parse.describe(), "malformed document");
    assert_eq!(
        FrError::MissingVariable("UNSET_VAR".to_string()).describe(),
        "missing variable: UNSET_VAR"
    );
    assert_eq!(
        FrError::PathQuery("SESSION_ID".to_string(), "\"session_id\"".to_string()).describe(),
        "no match for SESSION_ID by \"session_id\""
    );
    assert_eq!(
        FrError::ResponseMismatch(vec![]).describe(),
        "response mismatch at ."
    );
    assert_eq!(
        FrError::File("base.json".to_string()).describe(),
        "cannot load file: base.json"
    );
}

#[test]
fn further_fields_are_written_at_the_level_of_the_named_ones() {
    let request = Request {
        body: object(vec![]),
        etc: vec![
            ("header".to_string(), object(vec![("Authorization", text("${T}"))])),
            ("id".to_string(), text("007")),
        ],
        uri: "POST /logout".to_string(),
    };
    let written = request.to_document();
    assert_eq!(
        written,
        object(vec![
            ("body", object(vec![])),
            ("header", object(vec![("Authorization", text("${T}"))])),
            ("id", text("007")),
            ("uri", text("POST /logout")),
        ])
    );
    assert_eq!(Request::from_document(&written), Ok(request));

    let response = Response {
        body: text("b"),
        etc: vec![("user_level".to_string(), text("admin"))],
        status: 404,
    };
    let written = response.to_document();
    assert_eq!(
        written,
        object(vec![
            ("body", text("b")),
            ("user_level", text("admin")),
            ("status", number("404")),
        ])
    );
    assert_eq!(Response::from_document(&written), Ok(response));
}

#[test]
fn a_frame_is_read_back_from_what_it_writes() {
    let doc = parse_document(
        r#"{
            "protocol": "GRPC",
            "cut": {"reads": ["B", "A"], "writes": {"W": "\"w\""}},
            "request": {"uri": "svc/Method", "body": {"a": "${A}"}, "meta": 1},
            "response": {"status": 0, "body": null},
            "ignored": true
        }"#,
    )
    .unwrap();
    let frame = Frame::from_document(&doc).unwrap();
    assert_eq!(frame.cut.reads(), vec!["A", "B"]);
    assert_eq!(
        frame.cut.writes().iter(),
        vec![("W".to_string(), "\"w\"".to_string())]
    );
    let written = frame.to_document();
    assert_eq!(Frame::from_document(&written), Ok(frame));
    assert_eq!(
        written,
        parse_document(
            r#"{
            "protocol": "GRPC",
            "cut": {"reads": ["A", "B"], "writes": {"W": "\"w\""}},
            "request": {"body": {"a": "${A}"}, "meta": 1, "uri": "svc/Method"},
            "response": {"body": null, "status": 0}
        }"#
        )
        .unwrap()
    );
}

#[test]
fn documents_of_the_wrong_form_are_no_frames() {
    for bad in [
        r#"{"cut": {"from": [], "to": {}}, "request": {"uri": "u", "body": 1}, "response": {"status": 0, "body": 1}}"#,
        r#"{"protocol": "SOAP", "cut": {"from": [], "to": {}}, "request": {"uri": "u", "body": 1}, "response": {"status": 0, "body": 1}}"#,
        r#"{"protocol": "HTTP", "cut": {"from": []}, "request": {"uri": "u", "body": 1}, "response": {"status": 0, "body": 1}}"#,
        r#"{"protocol": "HTTP", "cut": {"from": [], "reads": [], "to": {}}, "request": {"uri": "u", "body": 1}, "response": {"status": 0, "body": 1}}"#,
        r#"{"protocol": "HTTP", "cut": {"from": [1], "to": {}}, "request": {"uri": "u", "body": 1}, "response": {"status": 0, "body": 1}}"#,
        r#"{"protocol": "HTTP", "cut": {"from": [], "to": {"A": 1}}, "request": {"uri": "u", "body": 1}, "response": {"status": 0, "body": 1}}"#,
        r#"{"protocol": "HTTP", "cut": {"from": [], "to": {}}, "request": {"body": 1}, "response": {"status": 0, "body": 1}}"#,
        r#"{"protocol": "HTTP", "cut": {"from": [], "to": {}}, "request": {"uri": 1, "body": 1}, "response": {"status": 0, "body": 1}}"#,
        r#"{"protocol": "HTTP", "cut": {"from": [], "to": {}}, "request": {"uri": "u"}, "response": {"status": 0, "body": 1}}"#,
        r#"{"protocol": "HTTP", "cut": {"from": [], "to": {}}, "request": {"uri": "u", "body": 1}, "response": {"body": 1}}"#,
        r#"{"protocol": "HTTP", "cut": {"from": [], "to": {}}, "request": {"uri": "u", "body": 1}, "response": {"status": "0", "body": 1}}"#,
        r#"{"protocol": "HTTP", "cut": {"from": [], "to": {}}, "request": {"uri": "u", "body": 1}, "response": {"status": -1, "body": 1}}"#,
        r#"{"protocol": "HTTP", "cut": {"from": [], "to": {}}, "request": {"uri": "u", "body": 1}, "response": {"status": 1.5, "body": 1}}"#,
        r#"{"protocol": "HTTP", "cut": {"from": [], "to": {}}, "request": {"uri": "u", "body": 1}, "response": {"status": 4294967296, "body": 1}}"#,
        r#"{"protocol": "HTTP", "cut": {"from": [], "to": {}}, "request": {"uri": "u", "body": 1}, "response": {"status": 0}}"#,
        r#"[]"#,
    ] {
        let doc = parse_document(bad).unwrap();
        assert_eq!(Frame::from_document(&doc), Err(FrError::Parse), "{}", bad);
    }
}

#[test]
fn both_names_of_reads_and_writes_are_taken() {
    let aliased = parse_document(r#"{"from": ["A"], "to": {"W": "w"}}"#).unwrap();
    let named = parse_document(r#"{"reads": ["A"], "writes": {"W": "w"}}"#).unwrap();
    let mixed = parse_document(r#"{"reads": ["A", "A"], "to": {"W": "w"}, "other": 1}"#).unwrap();
    let one = filmreel::frame::InstructionSet::from_document(&aliased).unwrap();
    assert_eq!(filmreel::frame::InstructionSet::from_document(&named), Ok(one));
    let one = filmreel::frame::InstructionSet::from_document(&aliased).unwrap();
    assert_eq!(filmreel::frame::InstructionSet::from_document(&mixed), Ok(one));
    let one = filmreel::frame::InstructionSet::from_document(&aliased).unwrap();
    assert_eq!(one.to_document(), named);
}
