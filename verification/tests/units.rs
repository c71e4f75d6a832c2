use fedcore::dser::{num_text_is_integral, parse_int_text};
use fedcore::engine::subgraph_headers;
use fedcore::json::JsonValue;
use fedcore::operation::{
    check_schema_wf, FedSchema, FieldDef, FieldTypeDef, HeaderRule, HeaderRuleValue, ObjectType,
    Subgraph,
};
use fedcore::shape::{DataType, Wrapping};
use fedcore::resolver::Resolver;
use fedcore::respond::to_json_string;
use fedcore::shape::ResponseKeys;
use fedcore::status::{GqlRecorderSpanExt, GraphqlResponseStatus, StatusRecorder};

#[test]
fn json_serialization_is_canonical() {
    let doc = JsonValue::Obj(vec![
        ("a".to_string(), JsonValue::Num("1".to_string())),
        (
            "b".to_string(),
            JsonValue::Arr(vec![
                JsonValue::Null,
                JsonValue::Bool(true),
                JsonValue::Str("x\"y\\z\n".to_string()),
            ]),
        ),
    ]);
    assert_eq!(to_json_string(&doc), "{\"a\":1,\"b\":[null,true,\"x\\\"y\\\\z\\n\"]}");
    // The canonical text round-trips through an independent JSON parser.
    let v: serde_json::Value = serde_json::from_str(&to_json_string(&doc)).unwrap();
    assert_eq!(v["b"][2], serde_json::Value::String("x\"y\\z\n".to_string()));
}

#[test]
fn integer_texts() {
    assert_eq!(parse_int_text("0"), Some(0));
    assert_eq!(parse_int_text("899"), Some(899));
    assert_eq!(parse_int_text("-42"), Some(-42));
    assert_eq!(parse_int_text(""), None);
    assert_eq!(parse_int_text("12a"), None);
    // The full 64-bit signed range is accepted, nothing beyond it.
    assert_eq!(parse_int_text("1234567890123456789"), Some(1234567890123456789));
    assert_eq!(parse_int_text("9223372036854775807"), Some(i64::MAX));
    assert_eq!(parse_int_text("9223372036854775808"), None);
    assert_eq!(parse_int_text("-9223372036854775808"), Some(i64::MIN));
    assert_eq!(parse_int_text("-9223372036854775809"), None);
    assert!(num_text_is_integral("12"));
    assert!(!num_text_is_integral("1.5"));
    assert!(!num_text_is_integral("1e3"));
}

#[test]
fn response_keys_lookup() {
    let keys = ResponseKeys { keys: vec!["a".to_string(), "b".to_string(), "a".to_string()] };
    assert_eq!(keys.get("a"), Some(0));
    assert_eq!(keys.get("b"), Some(1));
    assert_eq!(keys.get("c"), None);
}

#[test]
fn header_rules_forward_and_inject() {
    let schema = FedSchema {
        objects: vec![ObjectType { name: "Query".to_string(), fields: vec![], keys: vec![] }],
        subgraphs: vec![Subgraph {
            name: "products".to_string(),
            url: "http://products/graphql".to_string(),
            headers: vec![
                HeaderRule {
                    name: "x-grafbase-client-name".to_string(),
                    value: HeaderRuleValue::Forward("x-grafbase-client-name".to_string()),
                },
                HeaderRule {
                    name: "x-grafbase-client-version".to_string(),
                    value: HeaderRuleValue::Forward("x-grafbase-client-version".to_string()),
                },
                HeaderRule {
                    name: "x-static".to_string(),
                    value: HeaderRuleValue::Static("on".to_string()),
                },
                HeaderRule {
                    name: "x-absent".to_string(),
                    value: HeaderRuleValue::Forward("not-there".to_string()),
                },
            ],
        }],
        root: 0,
    };
    let incoming = vec![
        ("x-grafbase-client-name".to_string(), "test".to_string()),
        ("x-grafbase-client-version".to_string(), "1.0.0".to_string()),
    ];
    let out = subgraph_headers(&schema, 0, &incoming);
    assert_eq!(
        out,
        vec![
            ("x-grafbase-client-name".to_string(), "test".to_string()),
            ("x-grafbase-client-version".to_string(), "1.0.0".to_string()),
            ("x-static".to_string(), "on".to_string()),
        ]
    );
}

#[test]
fn client() {
    // Forwarded client headers reach the subgraph request unchanged.
    let schema = FedSchema {
        objects: vec![ObjectType { name: "Query".to_string(), fields: vec![], keys: vec![] }],
        subgraphs: vec![Subgraph {
            name: "products".to_string(),
            url: "http://products/graphql".to_string(),
            headers: vec![HeaderRule {
                name: "x-grafbase-client-name".to_string(),
                value: HeaderRuleValue::Forward("x-grafbase-client-name".to_string()),
            }],
        }],
        root: 0,
    };
    let incoming = vec![("x-grafbase-client-name".to_string(), "test".to_string())];
    let out = subgraph_headers(&schema, 0, &incoming);
    assert_eq!(out, vec![("x-grafbase-client-name".to_string(), "test".to_string())]);
}

#[test]
fn resolver_stub_normalizes_url() {
    let r = Resolver::stub("upstream", "ns", "http://example.com/graphql").expect("valid url");
    assert_eq!(r.name().as_str(), "upstream");
    assert_eq!(r.namespace.as_deref(), Some("ns"));
    assert_eq!(r.type_prefix.as_deref(), Some("ns"));
    assert_eq!(r.url, "http://example.com/graphql");
    assert!(Resolver::stub("upstream", "", "not a url").is_none());
    let no_ns = Resolver::stub("u", "", "http://example.com/").expect("valid url");
    assert!(no_ns.namespace.is_none());
}

#[test]
fn status_recorder_keeps_last_status() {
    let mut rec = StatusRecorder::new();
    rec.record_gql_status(GraphqlResponseStatus::Success);
    assert_eq!(
        rec.last_response.map(|a| a.status),
        Some(GraphqlResponseStatus::Success)
    );
    rec.record_field_errors(2, false);
    assert_eq!(
        rec.last_response.map(|a| a.status),
        Some(GraphqlResponseStatus::FieldError { count: 2, data_is_null: false })
    );
    rec.record_request_errors(1);
    assert_eq!(
        rec.last_response.map(|a| a.status),
        Some(GraphqlResponseStatus::RequestError { count: 1 })
    );
}

#[test]
fn builder_error_helpers() {
    let e = fedcore::error::GraphqlError::internal_server_error();
    assert_eq!(e.message, "Internal server error");
    assert_eq!(e.extensions.len(), 1);
    assert_eq!(e.extensions[0].0, "code");
    assert!(matches!(&e.extensions[0].1, JsonValue::Str(code) if code == "InternalServerError"));
}

#[test]
fn schema_checker() {
    let good = FedSchema {
        objects: vec![ObjectType {
            name: "Query".to_string(),
            fields: vec![FieldDef {
                name: "x".to_string(),
                subgraph: 0,
                wrapping: Wrapping { list_nullable: vec![], inner_nullable: false },
                ty: FieldTypeDef::Scalar(DataType::Str),
            }],
            keys: vec![],
        }],
        subgraphs: vec![Subgraph {
            name: "s".to_string(),
            url: "http://s/graphql".to_string(),
            headers: vec![],
        }],
        root: 0,
    };
    assert!(check_schema_wf(&good));
    let bad_root = FedSchema { root: 7, ..good };
    assert!(!check_schema_wf(&bad_root));
}
