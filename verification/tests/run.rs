use filmreel::cut::Register;
use filmreel::document::Doc;
use filmreel::error::{FrError, PathStep};
use filmreel::exchange::{settle_writes, store_all, Observed};
use filmreel::frame::{Frame, InstructionSet, Protocol, Request, Response};
use filmreel::matching::MatchMode;
use filmreel::run::{failed, step, Action, Event, Failure, FrameState, Run};
use filmreel::vreel::Plan;

fn text(s: &str) -> Doc {
    Doc::Text(s.to_string())
}

fn object(fields: Vec<(&str, Doc)>) -> Doc {
    Doc::Object(fields.into_iter().map(|(k, v)| (k.to_string(), v)).collect())
}

fn instructions(reads: &[&str], writes: &[(&str, &str)]) -> InstructionSet {
    let mut set = InstructionSet::new();
    for name in reads {
        set.read(name);
    }
    for (name, expression) in writes {
        set.write(name, expression);
    }
    set
}

fn login() -> Frame {
    Frame {
        protocol: Protocol::HTTP,
        cut: instructions(&[], &[("SESSION_ID", r#""session_id""#)]),
        request: Request {
            body: object(vec![("user", text("primus"))]),
            etc: vec![],
            uri: "POST /login".to_string(),
        },
        response: Response {
            body: object(vec![("session_id", text("${SESSION_ID}"))]),
            etc: vec![],
            status: 200,
        },
    }
}

fn logout() -> Frame {
    Frame {
        protocol: Protocol::GRPC,
        cut: instructions(&["SESSION_ID"], &[]),
        request: Request {
            body: object(vec![("token", text("${SESSION_ID}"))]),
            etc: vec![("trace".to_string(), text("t-${SESSION_ID}"))],
            uri: "user_api.User/Logout".to_string(),
        },
        response: Response {
            body: object(vec![]),
            etc: vec![],
            status: 0,
        },
    }
}

fn bare_logout() -> Frame {
    let mut frame = logout();
    frame.cut = InstructionSet::new();
    frame.request.body = object(vec![]);
    frame.request.etc = vec![];
    frame
}

fn plan_of(frames: Vec<(&str, Frame)>) -> Plan {
    Plan {
        register: Register::new(),
        frames: frames.into_iter().map(|(n, f)| (n.to_string(), f)).collect(),
    }
}

#[test]
fn a_value_written_by_one_frame_is_read_by_the_next() {
    let mut run = Run::new(plan_of(vec![("login", login()), ("logout", logout())]), MatchMode::Subset);

    let first = run.next_request();
    assert_eq!(
        first,
        Action::Send(
            Protocol::HTTP,
            Request {
                body: object(vec![("user", text("primus"))]),
                etc: vec![],
                uri: "POST /login".to_string(),
            }
        )
    );
    assert_eq!(run.next_request(), Action::Wait);
    assert!(run.mark_sent());
    let observed = Observed::read(200, r#"{"session_id": "abc123", "more": [1, 2]}"#).unwrap();
    assert!(run.receive(&observed));
    assert_eq!(run.variable("SESSION_ID"), Some(&"abc123".to_string()));

    let second = run.next_request();
    assert_eq!(
        second,
        Action::Send(
            Protocol::GRPC,
            Request {
                body: object(vec![("token", text("abc123"))]),
                etc: vec![("trace".to_string(), text("t-abc123"))],
                uri: "user_api.User/Logout".to_string(),
            }
        )
    );
    assert!(run.mark_sent());
    assert!(run.receive(&Observed::read(0, "{}").unwrap()));
    assert_eq!(run.next_request(), Action::Finished);
    assert_eq!(run.failed_with(), &None);
    assert_eq!(run.next_request(), Action::Finished);
}

#[test]
fn a_wildcard_in_the_expected_response_matches_any_observed_value() {
    for body in [
        r#"{"session_id": 17}"#,
        r#"{"session_id": true}"#,
        r#"{"session_id": "s"}"#,
    ] {
        let observed = Observed::read(200, body).unwrap();
        assert_eq!(login().check_response(&observed, MatchMode::Subset), Ok(()));
    }
    let mut register = Register::new();
    let observed = Observed::read(200, r#"{"session_id": 17}"#).unwrap();
    assert_eq!(login().take_response(&mut register, &observed, MatchMode::Subset), Ok(()));
    assert_eq!(register.get("SESSION_ID"), Some(&"17".to_string()));
    let observed = Observed::read(200, r#"{"session_id": false}"#).unwrap();
    assert_eq!(login().take_response(&mut register, &observed, MatchMode::Subset), Ok(()));
    assert_eq!(register.get("SESSION_ID"), Some(&"false".to_string()));
}

#[test]
fn a_frame_that_reads_an_unset_variable_fails_before_its_request_is_built() {
    let mut needy = logout();
    needy.cut = instructions(&["UNSET_VAR"], &[]);
    needy.request.body = object(vec![("token", text("${OTHER}"))]);
    assert_eq!(
        needy.build_request(&Register::new()),
        Err(FrError::MissingVariable("UNSET_VAR".to_string()))
    );

    let mut run = Run::new(plan_of(vec![("needy", needy), ("never", login())]), MatchMode::Subset);
    assert_eq!(run.next_request(), Action::Failed);
    assert_eq!(
        run.failed_with(),
        &Some(Failure {
            frame: "needy".to_string(),
            position: 0,
            error: FrError::MissingVariable("UNSET_VAR".to_string()),
        })
    );
    assert_eq!(run.next_request(), Action::Failed);
    assert!(!run.mark_sent());
    assert!(!run.receive(&Observed::read(200, "{}").unwrap()));
    assert!(!run.time_out());
    assert_eq!(run.next_request(), Action::Failed);
}

#[test]
fn the_least_missing_read_is_reported() {
    let mut frame = logout();
    frame.cut = instructions(&["Z", "B", "A", "C"], &[]);
    let mut register = Register::new();
    register.insert("A", "1");
    assert_eq!(
        frame.cut.check_reads(&register),
        Err(FrError::MissingVariable("B".to_string()))
    );
    register.insert("B", "1");
    register.insert("C", "1");
    assert_eq!(
        frame.build_request(&register),
        Err(FrError::MissingVariable("Z".to_string()))
    );
    register.insert("Z", "1");
    assert_eq!(frame.cut.check_reads(&register), Ok(()));
    assert_eq!(
        frame.build_request(&register),
        Err(FrError::MissingVariable("SESSION_ID".to_string()))
    );
}

#[test]
fn a_status_that_differs_fails_at_status_and_writes_nothing() {
    let mut created = login();
    created.response.status = 201;
    let observed = Observed::read(200, r#"{"session_id": "abc"}"#).unwrap();
    assert_eq!(
        created.check_response(&observed, MatchMode::Subset),
        Err(FrError::ResponseMismatch(vec![PathStep::Field(
            "status".to_string()
        )]))
    );
    let mut register = Register::new();
    register.insert("KEEP", "me");
    let error = created.take_response(&mut register, &observed, MatchMode::Subset).unwrap_err();
    assert_eq!(error.describe(), "response mismatch at .status");
    assert_eq!(register.get("SESSION_ID"), None);
    assert_eq!(register.len(), 1);

    let mut run = Run::new(plan_of(vec![("created", created), ("never", logout())]), MatchMode::Subset);
    assert!(matches!(run.next_request(), Action::Send(_, _)));
    assert!(run.mark_sent());
    assert!(run.receive(&observed));
    assert_eq!(run.variable("SESSION_ID"), None);
    assert_eq!(
        run.failed_with(),
        &Some(Failure {
            frame: "created".to_string(),
            position: 0,
            error: FrError::ResponseMismatch(vec![PathStep::Field("status".to_string())]),
        })
    );
    assert_eq!(run.next_request(), Action::Failed);
}

#[test]
fn a_write_without_a_match_fails_and_no_write_is_kept() {
    let mut frame = login();
    frame.cut = instructions(
        &[],
        &[("A_FIRST", r#""session_id""#), ("B_SECOND", r#""absent""#)],
    );
    let observed = Observed::read(200, r#"{"session_id": "abc"}"#).unwrap();
    let mut register = Register::new();
    assert_eq!(
        frame.take_response(&mut register, &observed, MatchMode::Subset),
        Err(FrError::PathQuery(
            "B_SECOND".to_string(),
            r#""absent""#.to_string()
        ))
    );
    assert_eq!(register, Register::new());

    let mut run = Run::new(plan_of(vec![("frame", frame)]), MatchMode::Subset);
    assert!(matches!(run.next_request(), Action::Send(_, _)));
    assert!(run.mark_sent());
    assert!(run.receive(&observed));
    assert_eq!(run.variable("A_FIRST"), None);
    match run.failed_with() {
        Some(failure) => {
            assert_eq!(failure.position, 0);
            assert_eq!(failure.frame, "frame");
            assert_eq!(
                failure.error.describe(),
                "no match for B_SECOND by \"absent\""
            );
        }
        None => panic!("the run has not failed"),
    }
}

#[test]
fn expressions_that_the_evaluator_cannot_take_select_nothing() {
    let observed = Observed::read(200, r#"{"list": ["a", "b"], "session_id": "s"}"#).unwrap();
    for expression in [r#""list".[5]."x""#, r#""list".[0]"#, "[", r#""a[b""#] {
        let mut frame = login();
        frame.cut = instructions(&[], &[("V", expression)]);
        assert_eq!(frame.query_writes(&observed), vec![None], "{}", expression);
        assert_eq!(
            frame.read_writes(&observed),
            Err(FrError::PathQuery("V".to_string(), expression.to_string()))
        );
    }
}

#[test]
fn expressions_that_select_no_single_value_fail_the_write() {
    let observed = Observed::read(200, r#"{"list": ["a", "b"], "session_id": "s"}"#).unwrap();
    for expression in [
        "",
        r#""session_id"#,
        r#""absent""#,
        r#""session_id"."deeper""#,
        r#""list""#,
        ".",
    ] {
        let mut frame = login();
        frame.cut = instructions(&[], &[("V", expression)]);
        assert_eq!(
            frame.read_writes(&observed),
            Err(FrError::PathQuery("V".to_string(), expression.to_string())),
            "{}",
            expression
        );
    }
}

#[test]
fn the_evaluator_selects_by_names() {
    let observed =
        Observed::read(200, r#"{"a": {"b": {"c": "deep"}}, "session_id": "s"}"#).unwrap();
    let mut frame = login();
    frame.cut = instructions(
        &[],
        &[("DEEP", r#""a"."b"."c""#), ("SESSION_ID", r#""session_id""#)],
    );
    assert_eq!(
        frame.query_writes(&observed),
        vec![Some(text("deep")), Some(text("s"))]
    );
    frame.cut = instructions(&[], &[("OBJECT", r#""a"."b""#)]);
    assert_eq!(
        frame.query_writes(&observed),
        vec![Some(object(vec![("c", text("deep"))]))]
    );
}

#[test]
fn a_write_takes_texts_numbers_and_booleans_only() {
    let observed = Observed::read(
        200,
        r#"{"session_id": "s", "n": -1.5, "b": true, "z": null, "o": {"deep": "d"}, "l": [1]}"#,
    )
    .unwrap();
    let mut frame = login();
    frame.cut = instructions(
        &[],
        &[("B", r#""b""#), ("D", r#""o"."deep""#), ("N", r#""n""#)],
    );
    assert_eq!(
        frame.read_writes(&observed),
        Ok(vec![
            ("B".to_string(), "true".to_string()),
            ("D".to_string(), "d".to_string()),
            ("N".to_string(), "-1.5".to_string()),
        ])
    );
    for expression in [r#""z""#, r#""o""#, r#""l""#] {
        frame.cut = instructions(&[], &[("V", expression)]);
        assert_eq!(
            frame.read_writes(&observed),
            Err(FrError::PathQuery("V".to_string(), expression.to_string()))
        );
    }
}

#[test]
fn settle_writes_is_all_or_nothing() {
    let writes = vec![
        ("A".to_string(), "a".to_string()),
        ("B".to_string(), "b".to_string()),
    ];
    assert_eq!(
        settle_writes(&writes, &vec![Some(text("1")), Some(Doc::Number("2".to_string()))]),
        Ok(vec![
            ("A".to_string(), "1".to_string()),
            ("B".to_string(), "2".to_string())
        ])
    );
    assert_eq!(
        settle_writes(&writes, &vec![Some(text("1")), None]),
        Err(FrError::PathQuery("B".to_string(), "b".to_string()))
    );
    assert_eq!(
        settle_writes(&writes, &vec![None, None]),
        Err(FrError::PathQuery("A".to_string(), "a".to_string()))
    );
    assert_eq!(
        settle_writes(&writes, &vec![Some(text("1"))]),
        Err(FrError::PathQuery("B".to_string(), "b".to_string()))
    );
    assert_eq!(
        settle_writes(&writes, &vec![Some(Doc::Null), Some(text("2"))]),
        Err(FrError::PathQuery("A".to_string(), "a".to_string()))
    );
    assert_eq!(settle_writes(&vec![], &vec![]), Ok(vec![]));
}

#[test]
fn store_all_gives_the_register_every_value() {
    let mut register = Register::new();
    register.insert("A", "old");
    register.insert("K", "kept");
    store_all(
        &mut register,
        &vec![
            ("A".to_string(), "new".to_string()),
            ("B".to_string(), "b".to_string()),
            ("A".to_string(), "newest".to_string()),
        ],
    );
    assert_eq!(register.get("A"), Some(&"newest".to_string()));
    assert_eq!(register.get("B"), Some(&"b".to_string()));
    assert_eq!(register.get("K"), Some(&"kept".to_string()));
    assert_eq!(register.len(), 3);
}

#[test]
fn a_response_that_is_not_json_is_refused() {
    assert!(Observed::read(200, "not json").is_err());
    assert!(Observed::read(200, "").is_err());
    let observed = Observed::read(404, "null").unwrap();
    assert_eq!(observed.as_response().status, 404);
    assert_eq!(observed.as_response().body, Doc::Null);
}

#[test]
fn further_fields_of_the_observed_response_are_checked() {
    let mut frame = logout();
    frame.response.etc = vec![("user_level".to_string(), text("admin"))];
    let bare = Observed::read(0, "{}").unwrap();
    assert_eq!(
        frame.check_response(&bare, MatchMode::Subset),
        Err(FrError::ResponseMismatch(vec![PathStep::Field(
            "user_level".to_string()
        )]))
    );
    let observed = Observed::read(0, "{}")
        .unwrap()
        .with_field("user_level", text("admin"))
        .with_field("other", Doc::Null);
    assert_eq!(frame.check_response(&observed, MatchMode::Subset), Ok(()));
}

#[test]
fn a_time_out_counts_as_a_mismatch() {
    let mut run = Run::new(plan_of(vec![("login", login()), ("never", logout())]), MatchMode::Subset);
    assert!(!run.time_out());
    assert!(matches!(run.next_request(), Action::Send(_, _)));
    assert!(!run.time_out());
    assert!(run.mark_sent());
    assert!(!run.mark_sent());
    assert!(run.time_out());
    assert_eq!(
        run.failed_with(),
        &Some(Failure {
            frame: "login".to_string(),
            position: 0,
            error: FrError::ResponseMismatch(vec![]),
        })
    );
    assert_eq!(run.variable("SESSION_ID"), None);
    assert_eq!(run.next_request(), Action::Failed);
}

#[test]
fn an_empty_plan_is_finished_at_once() {
    let mut run = Run::new(plan_of(vec![]), MatchMode::Subset);
    assert_eq!(run.next_request(), Action::Finished);
    assert!(!run.mark_sent());
    assert!(!run.receive(&Observed::read(200, "{}").unwrap()));
}

#[test]
fn the_states_of_a_frame_follow_one_another() {
    let mut state = FrameState::NotStarted;
    for (event, next) in [
        (Event::RequestReady, FrameState::RequestBuilt),
        (Event::Dispatched, FrameState::Sent),
        (Event::Responded, FrameState::ResponseReceived),
        (Event::Met, FrameState::Matched),
        (Event::Written, FrameState::RegisterUpdated),
        (Event::Closed, FrameState::Done),
    ] {
        assert_eq!(step(state, event), Some(next));
        state = next;
    }
    assert_eq!(
        step(FrameState::NotStarted, Event::VariableMissing),
        Some(FrameState::MissingVariable)
    );
    assert_eq!(step(FrameState::Sent, Event::TimedOut), Some(FrameState::Mismatched));
    assert_eq!(
        step(FrameState::ResponseReceived, Event::NotMet),
        Some(FrameState::Mismatched)
    );
    assert_eq!(
        step(FrameState::Matched, Event::WriteFailed),
        Some(FrameState::PathQueryError)
    );
    assert_eq!(step(FrameState::NotStarted, Event::Dispatched), None);
    assert_eq!(step(FrameState::RequestBuilt, Event::Responded), None);
}

#[test]
fn failures_and_done_are_final() {
    let events = [
        Event::RequestReady,
        Event::VariableMissing,
        Event::Dispatched,
        Event::Responded,
        Event::TimedOut,
        Event::Met,
        Event::NotMet,
        Event::Written,
        Event::WriteFailed,
        Event::Closed,
    ];
    for state in [
        FrameState::Mismatched,
        FrameState::MissingVariable,
        FrameState::PathQueryError,
        FrameState::Done,
    ] {
        assert_eq!(failed(state), state != FrameState::Done);
        for event in events {
            assert_eq!(step(state, event), None);
        }
    }
    assert!(!failed(FrameState::NotStarted));
    assert!(!failed(FrameState::Sent));
}

#[test]
fn a_run_checks_responses_in_the_mode_it_was_started_with() {
    let observed = Observed::read(0, r#"{"unexpected": 1}"#).unwrap();

    let mut lenient = Run::new(plan_of(vec![("logout", bare_logout())]), MatchMode::Subset);
    assert!(matches!(lenient.next_request(), Action::Send(_, _)));
    assert!(lenient.mark_sent());
    assert!(lenient.receive(&observed));
    assert_eq!(lenient.next_request(), Action::Finished);

    let mut strict = Run::new(plan_of(vec![("logout", bare_logout())]), MatchMode::Exact);
    assert!(matches!(strict.next_request(), Action::Send(_, _)));
    assert!(strict.mark_sent());
    assert!(strict.receive(&observed));
    assert_eq!(
        strict.failed_with(),
        &Some(Failure {
            frame: "logout".to_string(),
            position: 0,
            error: FrError::ResponseMismatch(vec![
                PathStep::Field("body".to_string()),
                PathStep::Field("unexpected".to_string())
            ]),
        })
    );
}

#[test]
fn every_supported_expression_is_answered() {
    let bodies = [
        "null",
        "true",
        "1.5",
        "\"text\"",
        "[]",
        "{}",
        "[1, [2, [3, []]], {\"a\": [4]}]",
        "[[], [[]], [{\"a\": 1}, {\"a\": 2}, {\"b\": 3}]]",
        "{\"a\": 1, \"b\": {\"a\": [1, 2, {\"a\": null}]}, \"\": \"\", \" \": [[1], [2]]}",
        "{\"a\": [{\"b\": 1, \"c\": 2}, {\"b\": 3}], \"d\": {\"e\": {\"f\": {}}}}",
    ];
    let pieces = [
        "", ".", "..", "!", "|", ",", " ", "{", "}", "]", ":", "\"", "\"\"", "\"a\"", "\"b\"",
        "\"d\"", "\" \"", "{\"a\"}", "{\"a\",\"b\"}", "{\"b\",\"zz\"}", "\"\\\"\"", "\"\\u0041\"",
        "a", "0", "\\",
    ];
    let mut expressions: Vec<String> = Vec::new();
    for first in pieces {
        for second in pieces {
            expressions.push(format!("{}{}", first, second));
        }
    }
    for first in &pieces[..12] {
        for second in &pieces[12..] {
            for third in &pieces[..12] {
                expressions.push(format!("{}{}{}", first, second, third));
            }
        }
    }
    for body in bodies {
        let observed = Observed::read(200, body).unwrap();
        for expression in &expressions {
            let mut frame = login();
            frame.cut = instructions(&[], &[("V", expression.as_str())]);
            let selected = frame.query_writes(&observed);
            assert_eq!(selected.len(), 1);
            assert_eq!(frame.query_writes(&observed), selected);
        }
    }
    assert_eq!(expressions.len(), 25 * 25 + 12 * 13 * 12);
}
