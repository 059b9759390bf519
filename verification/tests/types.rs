use filmreel::document::Doc;
use filmreel::frame::{Frame, InstructionSet, Protocol, Request, Response};
use filmreel::json::parse_document;

fn text(s: &str) -> Doc {
    Doc::Text(s.to_string())
}

fn object(fields: Vec<(&str, Doc)>) -> Doc {
    Doc::Object(fields.into_iter().map(|(k, v)| (k.to_string(), v)).collect())
}

fn fields(fields: Vec<(&str, Doc)>) -> Vec<(String, Doc)> {
    fields.into_iter().map(|(k, v)| (k.to_string(), v)).collect()
}

fn instructions(reads: &[&str], writes: &[(&str, &str)]) -> InstructionSet {
    let mut set = InstructionSet::new();
    for name in reads {
        set.read(name);
    }
    for (name, expression) in writes {
        set.write(name, expression);
    }
    set
}

const PROTOCOL_GRPC: &str = r#""GRPC""#;
const PROTOCOL_HTTP: &str = r#""HTTP""#;

#[test]
fn protocol() {
    let grpc_json = Protocol::from_document(&parse_document(PROTOCOL_GRPC).unwrap()).unwrap();
    let grpc: Protocol = Protocol::GRPC;
    assert_eq!(grpc_json, grpc);

    let http_json = Protocol::from_document(&parse_document(PROTOCOL_HTTP).unwrap()).unwrap();
    let http: Protocol = Protocol::HTTP;
    assert_eq!(http_json, http);
}

const REQUEST: &str = r#"
{
  "body": {
    "email": "new_user@humanmail.com"
  },
  "uri": "user_api.User/CreateUser"
}
"#;

#[test]
fn request() {
    let json = Request::from_document(&parse_document(REQUEST).unwrap()).unwrap();
    let request: Request = Request {
        body: object(vec![("email", text("new_user@humanmail.com"))]),
        etc: fields(vec![]),
        uri: String::from("user_api.User/CreateUser"),
    };
    assert_eq!(json, request);
}

const ETC_REQUEST: &str = r#"
{
  "header": {
    "Authorization": "${USER_TOKEN}"
  },
  "id" : "007",
  "body": {},
  "uri": "POST /logout/${USER_ID}"
}
"#;

#[test]
fn request_etc() {
    let etc_json = Request::from_document(&parse_document(ETC_REQUEST).unwrap()).unwrap();
    let etc_request: Request = Request {
        body: object(vec![]),
        etc: fields(vec![
            (
                "header",
                object(vec![("Authorization", text("${USER_TOKEN}"))]),
            ),
            ("id", text("007")),
        ]),
        uri: String::from("POST /logout/${USER_ID}"),
    };
    assert_eq!(etc_json, etc_request);
}

const RESPONSE: &str = r#"
{
  "body": "created user: ${USER_ID}",
  "status": 0
}
"#;

#[test]
fn response() {
    let json = Response::from_document(&parse_document(RESPONSE).unwrap()).unwrap();
    let response: Response = Response {
        body: text("created user: ${USER_ID}"),
        etc: fields(vec![]),
        status: 0,
    };
    assert_eq!(json, response);
}

const ETC_RESPONSE: &str = r#"
{
  "body": "created user: ${USER_ID}",
  "user_level": "admin",
  "status": 0
}
"#;

#[test]
fn response_etc() {
    let etc_json = Response::from_document(&parse_document(ETC_RESPONSE).unwrap()).unwrap();
    let etc_response: Response = Response {
        body: text("created user: ${USER_ID}"),
        etc: fields(vec![("user_level", text("admin"))]),
        status: 0,
    };
    assert_eq!(etc_json, etc_response);
}

const INSTRUCTION_SET: &str = r#"
{
  "from": [
    "USER_ID",
    "USER_TOKEN"
  ],
  "to": {
    "SESSION_ID": ".response.body.session_id",
    "DATETIME": ".response.body.timestamp"
  }
}
"#;

#[test]
fn instruction_set() {
    let json = InstructionSet::from_document(&parse_document(INSTRUCTION_SET).unwrap()).unwrap();

    let instructions = instructions(
        &["USER_ID", "USER_TOKEN"],
        &[
            ("SESSION_ID", ".response.body.session_id"),
            ("DATETIME", ".response.body.timestamp"),
        ],
    );
    assert_eq!(json, instructions);
}

const FRAME: &str = r#"
{
  "protocol": "HTTP",
  "cut": {
    "from": [
      "USER_ID",
      "USER_TOKEN"
    ],
    "to": {
      "SESSION_ID": ".response.body.session_id",
      "DATETIME": ".response.body.timestamp"
    }
  },
  "request": {
    "header": {
      "Authorization": "${USER_TOKEN}"
    },
    "body": {},
    "uri": "POST /logout/${USER_ID}"
  },
  "response": {
    "body": {
      "message": "User ${USER_ID} logged out",
      "session_id": "${SESSION_ID}",
      "timestamp": "${DATETIME}"
    },
    "status": 200
  }
}
"#;

#[test]
fn frame() {
    let json = Frame::from_document(&parse_document(FRAME).unwrap()).unwrap();
    let frame = Frame {
        protocol: Protocol::HTTP,
        cut: instructions(
            &["USER_ID", "USER_TOKEN"],
            &[
                ("SESSION_ID", ".response.body.session_id"),
                ("DATETIME", ".response.body.timestamp"),
            ],
        ),
        request: Request {
            body: object(vec![]),
            etc: fields(vec![(
                "header",
                object(vec![("Authorization", text("${USER_TOKEN}"))]),
            )]),
            uri: String::from("POST /logout/${USER_ID}"),
        },

        response: Response {
            body: object(vec![
                ("message", text("User ${USER_ID} logged out")),
                ("session_id", text("${SESSION_ID}")),
                ("timestamp", text("${DATETIME}")),
            ]),
            etc: fields(vec![]),
            status: 200,
        },
    };
    assert_eq!(json, frame, "\njson -> frame");
}
