use filmreel::cut::Register;
use filmreel::document::Doc;
use filmreel::error::FrError;
use filmreel::frame::{Frame, InstructionSet, Protocol, Request, Response};
use filmreel::json::{parse_document, parse_files};
use filmreel::ordered::Ordered;
use filmreel::vreel::{FrameSource, Plan, VirtualCut, VirtualFrames, VirtualReel};

fn register(pairs: &[(&str, &str)]) -> Register {
    let mut reg = Register::new();
    for (key, val) in pairs {
        reg.insert(key, val);
    }
    reg
}

fn text(s: &str) -> Doc {
    Doc::Text(s.to_string())
}

fn object(fields: Vec<(&str, Doc)>) -> Doc {
    Doc::Object(fields.into_iter().map(|(k, v)| (k.to_string(), v)).collect())
}

fn frame(uri: &str) -> Frame {
    Frame {
        protocol: Protocol::HTTP,
        cut: InstructionSet::new(),
        request: Request {
            body: object(vec![]),
            etc: vec![],
            uri: uri.to_string(),
        },
        response: Response {
            body: object(vec![]),
            etc: vec![],
            status: 200,
        },
    }
}

fn frame_document(uri: &str) -> Doc {
    frame(uri).to_document()
}

fn path(p: &str) -> FrameSource {
    FrameSource::Path(p.to_string())
}

fn renamed(pairs: Vec<(&str, FrameSource)>) -> VirtualFrames {
    let mut map = Ordered::new();
    for (name, source) in pairs {
        map.insert(name.to_string(), source);
    }
    VirtualFrames::RenamedList(map)
}

fn names(plan: &Plan) -> Vec<&str> {
    plan.frames.iter().map(|(name, _)| name.as_str()).collect()
}

#[test]
fn renamed_frames_run_in_ascending_order_of_their_names() {
    let f1 = frame("first");
    let f2 = frame("second");
    let reel = VirtualReel {
        name: "reel".to_string(),
        frames: renamed(vec![
            ("b", FrameSource::Inline(frame("first"))),
            ("a", FrameSource::Inline(frame("second"))),
        ]),
        cut: VirtualCut::Register(Register::new()),
    };
    let plan = reel.assemble(&vec![]).unwrap();
    assert_eq!(
        plan.frames,
        vec![("a".to_string(), f2), ("b".to_string(), f1)]
    );
}

#[test]
fn renamed_frames_from_a_document_run_in_ascending_order() {
    let doc = parse_document(
        r#"{"name": "reel", "frames": {"b": "f1.fr.json", "a": "f2.fr.json"}, "cut": {}}"#,
    )
    .unwrap();
    let reel = VirtualReel::from_document(&doc).unwrap();
    let files = vec![
        ("f1.fr.json".to_string(), frame_document("first")),
        ("f2.fr.json".to_string(), frame_document("second")),
    ];
    let plan = reel.assemble(&files).unwrap();
    assert_eq!(
        plan.frames,
        vec![
            ("a".to_string(), frame("second")),
            ("b".to_string(), frame("first"))
        ]
    );
    assert_eq!(reel.files(), vec!["f2.fr.json", "f1.fr.json"]);
}

#[test]
fn listed_frames_run_as_they_are_listed_under_their_own_names() {
    let reel = VirtualReel {
        name: "reel".to_string(),
        frames: VirtualFrames::List(vec![
            path("usr.04s.validateuser.fr.json"),
            FrameSource::Inline(frame("inline")),
            path("usr.01s.createuser.fr.json"),
        ]),
        cut: VirtualCut::Register(register(&[("KEY", "value")])),
    };
    let files = vec![
        ("usr.01s.createuser.fr.json".to_string(), frame_document("create")),
        ("usr.04s.validateuser.fr.json".to_string(), frame_document("validate")),
    ];
    let plan = reel.assemble(&files).unwrap();
    assert_eq!(
        names(&plan),
        vec!["usr.04s.validateuser.fr.json", "1", "usr.01s.createuser.fr.json"]
    );
    assert_eq!(plan.frames[0].1, frame("validate"));
    assert_eq!(plan.frames[1].1, frame("inline"));
    assert_eq!(plan.frames[2].1, frame("create"));
    assert_eq!(plan.register, register(&[("KEY", "value")]));
    assert_eq!(
        reel.files(),
        vec!["usr.04s.validateuser.fr.json", "usr.01s.createuser.fr.json"]
    );
}

#[test]
fn merged_cuts_let_the_later_file_override() {
    let reel = VirtualReel {
        name: "reel".to_string(),
        frames: VirtualFrames::List(vec![]),
        cut: VirtualCut::MergeCuts(vec!["base.json".to_string(), "override.json".to_string()]),
    };
    let files = parse_files(&vec![
        (
            "override.json".to_string(),
            r#"{"X": "from override", "O": "o"}"#.to_string(),
        ),
        (
            "base.json".to_string(),
            r#"{"X": "from base", "B": "b"}"#.to_string(),
        ),
    ])
    .unwrap();
    let plan = reel.assemble(&files).unwrap();
    assert_eq!(plan.register.get("X"), Some(&"from override".to_string()));
    assert_eq!(
        plan.register,
        register(&[("X", "from override"), ("B", "b"), ("O", "o")])
    );
    assert_eq!(reel.files(), vec!["base.json", "override.json"]);
}

#[test]
fn a_single_cut_file_is_the_register() {
    let reel = VirtualReel {
        name: "reel".to_string(),
        frames: VirtualFrames::List(vec![]),
        cut: VirtualCut::Cut("only.cut.json".to_string()),
    };
    let files = vec![(
        "only.cut.json".to_string(),
        object(vec![("A", text("1"))]),
    )];
    let plan = reel.assemble(&files).unwrap();
    assert_eq!(plan.register, register(&[("A", "1")]));
    assert!(plan.frames.is_empty());
}

#[test]
fn a_file_that_is_not_there_is_named() {
    let reel = VirtualReel {
        name: "reel".to_string(),
        frames: VirtualFrames::List(vec![path("missing.fr.json")]),
        cut: VirtualCut::MergeCuts(vec!["there.json".to_string(), "gone.json".to_string()]),
    };
    let there = ("there.json".to_string(), object(vec![]));
    assert_eq!(
        reel.assemble(&vec![there]),
        Err(FrError::File("gone.json".to_string()))
    );
    let files = vec![
        ("there.json".to_string(), object(vec![])),
        ("gone.json".to_string(), object(vec![])),
    ];
    assert_eq!(
        reel.assemble(&files),
        Err(FrError::File("missing.fr.json".to_string()))
    );
}

#[test]
fn a_file_of_the_wrong_form_is_refused() {
    let reel = VirtualReel {
        name: "reel".to_string(),
        frames: VirtualFrames::List(vec![path("frame.json")]),
        cut: VirtualCut::Cut("cut.json".to_string()),
    };
    let bad_cut = vec![
        ("cut.json".to_string(), Doc::Array(vec![])),
        ("frame.json".to_string(), frame_document("x")),
    ];
    assert_eq!(reel.assemble(&bad_cut), Err(FrError::Parse));
    let bad_frame = vec![
        ("cut.json".to_string(), object(vec![])),
        ("frame.json".to_string(), object(vec![("protocol", text("HTTP"))])),
    ];
    assert_eq!(reel.assemble(&bad_frame), Err(FrError::Parse));
}

#[test]
fn text_that_is_not_json_is_refused() {
    assert_eq!(
        parse_files(&vec![
            ("good.json".to_string(), "{}".to_string()),
            ("bad.json".to_string(), "{".to_string()),
        ]),
        Err(FrError::Parse)
    );
    assert_eq!(parse_files(&vec![]), Ok(vec![]));
}

const VREEL_JSON: &str = r#"
{
  "name": "reel_name",
  "frames": [ "frame1.fr.json", "frame2.fr.json"],
  "cut": {"KEY": "value"}
}
    "#;

#[test]
fn vframe_de() {
    let actual = VirtualReel::from_document(&parse_document(VREEL_JSON).unwrap()).unwrap();
    assert_eq!(
        VirtualReel {
            name: "reel_name".into(),
            frames: VirtualFrames::List(vec![path("frame1.fr.json"), path("frame2.fr.json")]),
            cut: VirtualCut::Register(register(&[("KEY", "value")])),
        },
        actual
    );
}

const PATH_VREEL_JSON: &str = r#"
{
  "name": "reel_name",
  "frames": {
    "1": "other_reel.01s.name.fr.json"
  },
  "cut": ["other_reel.cut.json"]
}
    "#;

#[test]
fn pathbuf_vframe_de() {
    let actual = VirtualReel::from_document(&parse_document(PATH_VREEL_JSON).unwrap()).unwrap();
    assert_eq!(
        VirtualReel {
            name: "reel_name".into(),
            frames: renamed(vec![("1", path("other_reel.01s.name.fr.json"))]),
            cut: VirtualCut::MergeCuts(vec!["other_reel.cut.json".into()]),
        },
        actual
    );
}

#[test]
fn a_reel_reads_each_form_of_cut_and_frames() {
    let inline = frame("inline").to_document();
    let doc = object(vec![
        ("name", text("n")),
        ("frames", Doc::Array(vec![text("a.fr.json"), inline])),
        ("cut", text("one.cut.json")),
    ]);
    assert_eq!(
        VirtualReel::from_document(&doc).unwrap(),
        VirtualReel {
            name: "n".to_string(),
            frames: VirtualFrames::List(vec![
                path("a.fr.json"),
                FrameSource::Inline(frame("inline"))
            ]),
            cut: VirtualCut::Cut("one.cut.json".to_string()),
        }
    );
}

#[test]
fn a_reel_of_the_wrong_form_is_refused() {
    for doc in [
        Doc::Null,
        object(vec![]),
        object(vec![("name", text("n")), ("frames", Doc::Array(vec![]))]),
        object(vec![("name", text("n")), ("cut", object(vec![]))]),
        object(vec![
            ("name", Doc::Number("1".to_string())),
            ("frames", Doc::Array(vec![])),
            ("cut", object(vec![])),
        ]),
        object(vec![
            ("name", text("n")),
            ("frames", Doc::Array(vec![Doc::Null])),
            ("cut", object(vec![])),
        ]),
        object(vec![
            ("name", text("n")),
            ("frames", text("frame.json")),
            ("cut", object(vec![])),
        ]),
        object(vec![
            ("name", text("n")),
            ("frames", Doc::Array(vec![])),
            ("cut", Doc::Array(vec![Doc::Null])),
        ]),
        object(vec![
            ("name", text("n")),
            ("frames", Doc::Array(vec![])),
            ("cut", object(vec![("K", Doc::Null)])),
        ]),
        object(vec![
            ("name", text("n")),
            ("frames", Doc::Array(vec![])),
            ("cut", Doc::Bool(true)),
        ]),
    ] {
        assert_eq!(VirtualReel::from_document(&doc), Err(FrError::Parse));
    }
}

#[test]
fn vframe_ser() {
    let reel = VirtualReel {
        name: "reel_name".into(),
        frames: VirtualFrames::List(vec![path("frame1.fr.json"), path("frame2.fr.json")]),
        cut: VirtualCut::Register(register(&[("KEY", "value")])),
    };
    assert_eq!(parse_document(VREEL_JSON).unwrap(), reel.to_document());
}

#[test]
fn pathbuf_vframe_ser() {
    let reel = VirtualReel {
        name: "reel_name".into(),
        frames: renamed(vec![("1", path("other_reel.01s.name.fr.json"))]),
        cut: VirtualCut::MergeCuts(vec!["other_reel.cut.json".into()]),
    };
    assert_eq!(parse_document(PATH_VREEL_JSON).unwrap(), reel.to_document());
}

#[test]
fn a_reel_is_read_back_from_what_it_writes() {
    let reel = VirtualReel {
        name: "n".to_string(),
        frames: renamed(vec![
            ("b", FrameSource::Inline(frame("inline"))),
            ("a", path("a.fr.json")),
        ]),
        cut: VirtualCut::Cut("one.cut.json".to_string()),
    };
    let written = reel.to_document();
    assert_eq!(
        written,
        object(vec![
            ("name", text("n")),
            (
                "frames",
                object(vec![("a", text("a.fr.json")), ("b", frame("inline").to_document())])
            ),
            ("cut", text("one.cut.json")),
        ])
    );
    assert_eq!(VirtualReel::from_document(&written), Ok(reel));
}
