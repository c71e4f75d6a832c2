use fedcore::engine::{next_action, provide_body, start_execution, Engine, StepAction};
use fedcore::json::JsonValue;
use fedcore::operation::{FedSchema, FieldDef, FieldTypeDef, ObjectType, Subgraph};
use fedcore::shape::{DataType, Wrapping};

fn w_req() -> Wrapping {
    Wrapping { list_nullable: vec![], inner_nullable: false }
}

fn w_opt() -> Wrapping {
    Wrapping { list_nullable: vec![], inner_nullable: true }
}

// A required list of nullable items.
fn w_list_req_opt_items() -> Wrapping {
    Wrapping { list_nullable: vec![false], inner_nullable: true }
}

// A nullable list of required items.
fn w_list_opt_req_items() -> Wrapping {
    Wrapping { list_nullable: vec![true], inner_nullable: false }
}

// A required list of required items.
fn w_list_req_req_items() -> Wrapping {
    Wrapping { list_nullable: vec![false], inner_nullable: false }
}

fn subgraphs2() -> Vec<Subgraph> {
    vec![
        Subgraph { name: "products".to_string(), url: "http://products/graphql".to_string(), headers: vec![] },
        Subgraph { name: "reviews".to_string(), url: "http://reviews/graphql".to_string(), headers: vec![] },
    ]
}

/// Query(0) { topProducts: [Product]! @products }, Product(1) { upc: String! @products,
/// name: String! @products, reviews @reviews }, Review(2) { id: String! @reviews }.
fn products_schema(reviews_wrapping: Wrapping) -> FedSchema {
    FedSchema {
        objects: vec![
            ObjectType {
                name: "Query".to_string(),
                fields: vec![FieldDef {
                    name: "topProducts".to_string(),
                    subgraph: 0,
                    wrapping: w_list_req_opt_items(),
                    ty: FieldTypeDef::Object(1),
                }],
                keys: vec![],
            },
            ObjectType {
                name: "Product".to_string(),
                fields: vec![
                    FieldDef {
                        name: "upc".to_string(),
                        subgraph: 0,
                        wrapping: w_req(),
                        ty: FieldTypeDef::Scalar(DataType::Str),
                    },
                    FieldDef {
                        name: "name".to_string(),
                        subgraph: 0,
                        wrapping: w_req(),
                        ty: FieldTypeDef::Scalar(DataType::Str),
                    },
                    FieldDef {
                        name: "reviews".to_string(),
                        subgraph: 1,
                        wrapping: reviews_wrapping,
                        ty: FieldTypeDef::Object(2),
                    },
                ],
                keys: vec![0],
            },
            ObjectType {
                name: "Review".to_string(),
                fields: vec![FieldDef {
                    name: "id".to_string(),
                    subgraph: 1,
                    wrapping: w_req(),
                    ty: FieldTypeDef::Scalar(DataType::Str),
                }],
                keys: vec![],
            },
        ],
        subgraphs: subgraphs2(),
        root: 0,
    }
}

fn obj(members: Vec<(&str, JsonValue)>) -> JsonValue {
    JsonValue::Obj(members.into_iter().map(|(k, v)| (k.to_string(), v)).collect())
}

fn s(v: &str) -> JsonValue {
    JsonValue::Str(v.to_string())
}

fn norm(s: &str) -> serde_json::Value {
    serde_json::from_str(s).expect("response must be valid JSON")
}

#[test]
fn introspection_only_typename() {
    let mut engine = Engine::new(products_schema(w_list_opt_req_items()));
    let r = engine.execute("{ __typename }", vec![]);
    assert_eq!(r, "{\"data\":{\"__typename\":\"Query\"}}");
}

#[test]
fn single_subgraph_two_products() {
    let mut engine = Engine::new(products_schema(w_list_opt_req_items()));
    let body = obj(vec![(
        "data",
        obj(vec![(
            "topProducts",
            JsonValue::Arr(vec![
                obj(vec![("upc", s("1")), ("name", s("Table"))]),
                obj(vec![("upc", s("2")), ("name", s("Couch"))]),
            ]),
        )]),
    )]);
    let r = engine.execute("{ topProducts { upc name } }", vec![body]);
    assert_eq!(
        norm(&r),
        norm("{\"data\":{\"topProducts\":[{\"upc\":\"1\",\"name\":\"Table\"},{\"upc\":\"2\",\"name\":\"Couch\"}]}}")
    );
}

#[test]
fn two_hop_entity_nullable_reviews() {
    let mut engine = Engine::new(products_schema(w_list_opt_req_items()));
    let products_body = obj(vec![(
        "data",
        obj(vec![(
            "topProducts",
            JsonValue::Arr(vec![
                obj(vec![("upc", s("1")), ("_key_upc", s("1"))]),
                obj(vec![("upc", s("2")), ("_key_upc", s("2"))]),
            ]),
        )]),
    )]);
    let reviews_body = obj(vec![(
        "data",
        obj(vec![(
            "_entities",
            JsonValue::Arr(vec![
                obj(vec![("reviews", JsonValue::Arr(vec![obj(vec![("id", s("r1"))])]))]),
                JsonValue::Null,
            ]),
        )]),
    )]);
    let r = engine.execute(
        "{ topProducts { upc reviews { id } } }",
        vec![products_body, reviews_body],
    );
    let v = norm(&r);
    assert_eq!(
        v["data"],
        norm("{\"topProducts\":[{\"upc\":\"1\",\"reviews\":[{\"id\":\"r1\"}]},{\"upc\":\"2\",\"reviews\":null}]}")
    );
    assert!(v.get("errors").is_none());
}

#[test]
fn required_reviews_null_propagates_to_product() {
    let mut engine = Engine::new(products_schema(w_list_req_req_items()));
    let products_body = obj(vec![(
        "data",
        obj(vec![(
            "topProducts",
            JsonValue::Arr(vec![
                obj(vec![("upc", s("1")), ("_key_upc", s("1"))]),
                obj(vec![("upc", s("2")), ("_key_upc", s("2"))]),
            ]),
        )]),
    )]);
    let reviews_body = obj(vec![(
        "data",
        obj(vec![(
            "_entities",
            JsonValue::Arr(vec![
                obj(vec![("reviews", JsonValue::Arr(vec![obj(vec![("id", s("r1"))])]))]),
                obj(vec![("reviews", JsonValue::Null)]),
            ]),
        )]),
    )]);
    let r = engine.execute(
        "{ topProducts { upc reviews { id } } }",
        vec![products_body, reviews_body],
    );
    let v = norm(&r);
    // The second product was nulled by propagation.
    assert_eq!(
        v["data"],
        norm("{\"topProducts\":[{\"upc\":\"1\",\"reviews\":[{\"id\":\"r1\"}]},null]}")
    );
    let errs = v["errors"].as_array().expect("one error expected");
    assert_eq!(errs.len(), 1);
    assert_eq!(errs[0]["path"], norm("[\"topProducts\",1,\"reviews\"]"));
}

#[test]
fn upstream_error_with_translated_path() {
    let mut engine = Engine::new(products_schema(w_list_opt_req_items()));
    let body = obj(vec![
        (
            "data",
            obj(vec![(
                "topProducts",
                JsonValue::Arr(vec![
                    obj(vec![("upc", s("1")), ("name", JsonValue::Null)]),
                    obj(vec![("upc", s("2")), ("name", s("Couch"))]),
                ]),
            )]),
        ),
        (
            "errors",
            JsonValue::Arr(vec![obj(vec![
                ("message", s("boom")),
                (
                    "path",
                    JsonValue::Arr(vec![
                        s("topProducts"),
                        JsonValue::Num("0".to_string()),
                        s("name"),
                    ]),
                ),
            ])]),
        ),
    ]);
    let r = engine.execute("{ topProducts { upc name } }", vec![body]);
    let v = norm(&r);
    // The first product was nulled: `name` is non-null and came back null.
    assert_eq!(v["data"], norm("{\"topProducts\":[null,{\"upc\":\"2\",\"name\":\"Couch\"}]}"));
    let errs = v["errors"].as_array().expect("errors expected");
    assert_eq!(errs.len(), 2);
    assert_eq!(errs[1]["message"], norm("\"Upstream error: boom\""));
    assert_eq!(errs[1]["path"], norm("[\"topProducts\",0,\"name\"]"));
}

#[test]
fn request_error() {
    let mut engine = Engine::new(products_schema(w_list_opt_req_items()));
    let r = engine.execute("{ __typ__ename }", vec![]);
    assert_eq!(
        r,
        "{\"errors\":[{\"message\":\"Query does not have a field named '__typ__ename'\",\"locations\":[{\"line\":1,\"column\":3}]}]}"
    );
}

#[test]
fn basic() {
    // The smallest possible request: only the root type name, no dispatch.
    let mut engine = Engine::new(products_schema(w_list_opt_req_items()));
    let r = engine.execute("{ __typename }", vec![]);
    let v = norm(&r);
    assert_eq!(v["data"]["__typename"], norm("\"Query\""));
    assert!(v.get("errors").is_none());
}

/// Query(0){ me: Product @products } with Product.name: String! — a null for
/// a required field nulls the nearest nullable ancestor.
fn me_schema() -> FedSchema {
    FedSchema {
        objects: vec![
            ObjectType {
                name: "Query".to_string(),
                fields: vec![FieldDef {
                    name: "me".to_string(),
                    subgraph: 0,
                    wrapping: w_opt(),
                    ty: FieldTypeDef::Object(1),
                }],
                keys: vec![],
            },
            ObjectType {
                name: "Product".to_string(),
                fields: vec![FieldDef {
                    name: "id".to_string(),
                    subgraph: 0,
                    wrapping: w_req(),
                    ty: FieldTypeDef::Scalar(DataType::Str),
                }],
                keys: vec![],
            },
        ],
        subgraphs: subgraphs2(),
        root: 0,
    }
}

#[test]
fn field_error() {
    let mut engine = Engine::new(me_schema());
    let body = obj(vec![("data", obj(vec![("me", obj(vec![("id", JsonValue::Null)]))]))]);
    let r = engine.execute("{ __typename me { id } }", vec![body]);
    let v = norm(&r);
    assert_eq!(v["data"]["__typename"], norm("\"Query\""));
    assert_eq!(v["data"]["me"], serde_json::Value::Null);
    let errs = v["errors"].as_array().expect("one error expected");
    assert_eq!(errs[0]["path"], norm("[\"me\",\"id\"]"));
}

#[test]
fn field_error_data_null() {
    // A required root field with `data: null` nulls the whole data.
    let schema = FedSchema {
        objects: vec![
            ObjectType {
                name: "Query".to_string(),
                fields: vec![FieldDef {
                    name: "me".to_string(),
                    subgraph: 0,
                    wrapping: w_req(),
                    ty: FieldTypeDef::Object(1),
                }],
                keys: vec![],
            },
            ObjectType {
                name: "Product".to_string(),
                fields: vec![FieldDef {
                    name: "id".to_string(),
                    subgraph: 0,
                    wrapping: w_req(),
                    ty: FieldTypeDef::Scalar(DataType::Str),
                }],
                keys: vec![],
            },
        ],
        subgraphs: subgraphs2(),
        root: 0,
    };
    let mut engine = Engine::new(schema);
    let body = obj(vec![("data", JsonValue::Null)]);
    let r = engine.execute("{ me { id } }", vec![body]);
    let v = norm(&r);
    assert_eq!(v["data"], serde_json::Value::Null);
    let errs = v["errors"].as_array().expect("one error expected");
    assert_eq!(errs.len(), 1);
    assert_eq!(errs[0]["path"], norm("[\"me\"]"));
}

#[test]
fn extra_entities_error() {
    let mut engine = Engine::new(products_schema(w_list_opt_req_items()));
    let products_body = obj(vec![(
        "data",
        obj(vec![(
            "topProducts",
            JsonValue::Arr(vec![obj(vec![("upc", s("1")), ("_key_upc", s("1"))])]),
        )]),
    )]);
    let reviews_body = obj(vec![(
        "data",
        obj(vec![(
            "_entities",
            JsonValue::Arr(vec![
                obj(vec![("reviews", JsonValue::Null)]),
                obj(vec![("reviews", JsonValue::Null)]),
            ]),
        )]),
    )]);
    let r = engine.execute(
        "{ topProducts { upc reviews { id } } }",
        vec![products_body, reviews_body],
    );
    let v = norm(&r);
    let errs = v["errors"].as_array().expect("errors expected");
    assert!(errs
        .iter()
        .any(|e| e["message"] == norm("\"Received more entities than expected\"")));
}

#[test]
fn unknown_upstream_keys_ignored() {
    let mut engine = Engine::new(products_schema(w_list_opt_req_items()));
    let body = obj(vec![
        ("telemetry", s("ignored")),
        (
            "data",
            obj(vec![
                (
                    "topProducts",
                    JsonValue::Arr(vec![obj(vec![
                        ("surprise", s("ignored")),
                        ("upc", s("1")),
                        ("name", s("Table")),
                    ])]),
                ),
                ("other", s("ignored")),
            ]),
        ),
    ]);
    let r = engine.execute("{ topProducts { upc name } }", vec![body]);
    let v = norm(&r);
    assert_eq!(v["data"], norm("{\"topProducts\":[{\"upc\":\"1\",\"name\":\"Table\"}]}"));
    assert!(v.get("errors").is_none());
}

#[test]
fn unresolvable_upstream_path_kept_in_extensions() {
    let mut engine = Engine::new(products_schema(w_list_opt_req_items()));
    let body = obj(vec![
        (
            "data",
            obj(vec![(
                "topProducts",
                JsonValue::Arr(vec![obj(vec![("upc", s("1")), ("name", s("Table"))])]),
            )]),
        ),
        (
            "errors",
            JsonValue::Arr(vec![obj(vec![
                ("message", s("x")),
                ("path", JsonValue::Arr(vec![s("nope"), JsonValue::Num("0".to_string())])),
            ])]),
        ),
    ]);
    let r = engine.execute("{ topProducts { upc name } }", vec![body]);
    let v = norm(&r);
    let errs = v["errors"].as_array().expect("errors expected");
    assert_eq!(errs[0]["message"], norm("\"Upstream error: x\""));
    assert_eq!(errs[0]["path"], norm("[]"));
    assert_eq!(errs[0]["extensions"]["upstream_path"], norm("[\"nope\",0]"));
}

#[test]
fn aliases_are_response_keys() {
    let mut engine = Engine::new(products_schema(w_list_opt_req_items()));
    let body = obj(vec![(
        "data",
        obj(vec![(
            "items",
            JsonValue::Arr(vec![obj(vec![("upc", s("1")), ("name", s("Table"))])]),
        )]),
    )]);
    let r = engine.execute("{ items: topProducts { upc name } }", vec![body]);
    let v = norm(&r);
    assert_eq!(v["data"], norm("{\"items\":[{\"upc\":\"1\",\"name\":\"Table\"}]}"));
}

/// Query(0){ n: Int! @products } — integer coercion accepts integral number
/// texts only.
fn int_schema() -> FedSchema {
    FedSchema {
        objects: vec![
            ObjectType {
                name: "Query".to_string(),
                fields: vec![FieldDef {
                    name: "n".to_string(),
                    subgraph: 0,
                    wrapping: w_req(),
                    ty: FieldTypeDef::Scalar(DataType::Int),
                }],
                keys: vec![],
            },
        ],
        subgraphs: subgraphs2(),
        root: 0,
    }
}

#[test]
fn int_coercion_accepts_integers() {
    let mut engine = Engine::new(int_schema());
    let body = obj(vec![("data", obj(vec![("n", JsonValue::Num("899".to_string()))]))]);
    let r = engine.execute("{ n }", vec![body]);
    assert_eq!(r, "{\"data\":{\"n\":899}}");
}

#[test]
fn int_coercion_rejects_fractions() {
    let mut engine = Engine::new(int_schema());
    let body = obj(vec![("data", obj(vec![("n", JsonValue::Num("1.5".to_string()))]))]);
    let r = engine.execute("{ n }", vec![body]);
    let v = norm(&r);
    // `n` is required and failed to coerce: the whole data is nulled.
    assert_eq!(v["data"], serde_json::Value::Null);
    let errs = v["errors"].as_array().expect("one error expected");
    assert_eq!(errs[0]["path"], norm("[\"n\"]"));
}

#[test]
fn compiled_subgraph_queries() {
    let mut engine = Engine::new(products_schema(w_list_opt_req_items()));
    let idx = engine
        .prepare("{ topProducts { upc reviews { id } } }")
        .expect("plans");
    let plan = &engine.cache.entries[idx].1;
    let mut state = start_execution(plan);
    // The products root plan fetches the requested fields plus the key.
    let req1 = match next_action(&engine.schema, plan, &mut state) {
        StepAction::Fetch(r) => r,
        _ => panic!("a dispatch was expected"),
    };
    assert_eq!(req1.subgraph, 0);
    assert_eq!(
        req1.body,
        "{\"query\":\"query{topProducts{upc _key_upc:upc}}\"}"
    );
    let products_body = obj(vec![(
        "data",
        obj(vec![(
            "topProducts",
            JsonValue::Arr(vec![obj(vec![("upc", s("1")), ("_key_upc", s("1"))])]),
        )]),
    )]);
    let _ = provide_body(&engine.schema, plan, &mut state, products_body);
    // The reviews entity plan sends the representations of the boundary.
    let req2 = match next_action(&engine.schema, plan, &mut state) {
        StepAction::Fetch(r) => r,
        _ => panic!("a second dispatch was expected"),
    };
    assert_eq!(req2.subgraph, 1);
    assert_eq!(
        req2.body,
        "{\"query\":\"query($representations:[_Any!]!){_entities(representations:$representations){... on Product{reviews{id}}}}\",\"variables\":{\"representations\":[{\"__typename\":\"Product\",\"upc\":\"1\"}]}}"
    );
}

#[test]
fn subscriptions_are_refused() {
    let mut engine = Engine::new(products_schema(w_list_opt_req_items()));
    let r = engine.execute("subscription { topProducts { upc } }", vec![]);
    let v = norm(&r);
    assert!(v.get("data").is_none());
    assert_eq!(
        v["errors"][0]["message"],
        norm("\"Subscriptions are only supported on streaming transports\"")
    );
}

#[test]
fn partially_resolved_upstream_path_remainder() {
    let mut engine = Engine::new(products_schema(w_list_opt_req_items()));
    let body = obj(vec![
        (
            "data",
            obj(vec![(
                "topProducts",
                JsonValue::Arr(vec![obj(vec![("upc", s("1")), ("name", s("Table"))])]),
            )]),
        ),
        (
            "errors",
            JsonValue::Arr(vec![obj(vec![
                ("message", s("y")),
                (
                    "path",
                    JsonValue::Arr(vec![
                        s("topProducts"),
                        JsonValue::Num("0".to_string()),
                        s("zzz"),
                    ]),
                ),
            ])]),
        ),
    ]);
    let r = engine.execute("{ topProducts { upc name } }", vec![body]);
    let v = norm(&r);
    let errs = v["errors"].as_array().expect("errors expected");
    // The resolved portion becomes the local path; only the remainder is
    // kept under extensions.
    assert_eq!(errs[0]["path"], norm("[\"topProducts\",0]"));
    assert_eq!(errs[0]["extensions"]["upstream_path"], norm("[\"zzz\"]"));
}
