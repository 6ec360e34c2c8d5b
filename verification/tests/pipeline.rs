use open_api_to_http::aggregate::convert;
use open_api_to_http::diag::Warning;
use open_api_to_http::http_data::{extract_request_line, parse_request_line, HttpData, Names};
use open_api_to_http::open_api::{
    Components, HttpMethod, MediaType, Object, OpenApi, Operation, Parameters, PrimitiveType,
    Property, RequestBody, Schema, SecuritySchema, SecuritySchemaApiKey,
    SecuritySchemaBearerToken, SecurityTokenLocation, SecurityType,
};

fn empty_operation() -> Operation {
    Operation { parameters: None, request_body: None, security: None }
}

fn path_parameter(name: &str) -> Parameters {
    Parameters {
        location: String::from("path"),
        name: String::from(name),
        required: Some(true),
        default: None,
    }
}

#[test]
fn end_to_end_single_endpoint() {
    let op = Operation {
        parameters: Some(vec![path_parameter("id")]),
        request_body: None,
        security: None,
    };
    let schema = OpenApi {
        paths: vec![(String::from("/users/{id}"), vec![(HttpMethod::Get, op)])],
        components: None,
    };
    let out = convert(&schema).unwrap();
    assert!(out.warnings.is_empty());
    assert!(out.folders.is_empty());
    assert_eq!(out.documents.len(), 1);
    assert_eq!(out.documents[0].path, "/users.http");
    assert_eq!(
        out.documents[0].content,
        "# Parameters\n#  - id: String\n#\nGET /users/{id}\nHost: {{HTTP_HOST}}"
    );
}

#[test]
fn endpoints_differing_in_parameter_names_share_one_document() {
    let schema = OpenApi {
        paths: vec![
            (String::from("/a/{x}"), vec![(HttpMethod::Get, empty_operation())]),
            (String::from("/a/{y}"), vec![(HttpMethod::Post, empty_operation())]),
        ],
        components: None,
    };
    let out = convert(&schema).unwrap();
    assert_eq!(out.documents.len(), 1);
    assert_eq!(out.documents[0].path, "/a/a.http");
    assert_eq!(
        out.documents[0].content,
        "GET /a/{x}\nHost: {{HTTP_HOST}}\n\nPOST /a/{y}\nHost: {{HTTP_HOST}}"
    );
    assert_eq!(out.folders, vec!["/a"]);
}

#[test]
fn file_and_folder_collision_moves_the_file_inside() {
    let schema = OpenApi {
        paths: vec![
            (String::from("/a"), vec![(HttpMethod::Get, empty_operation())]),
            (String::from("/a/b"), vec![(HttpMethod::Get, empty_operation())]),
        ],
        components: None,
    };
    let out = convert(&schema).unwrap();
    assert_eq!(out.documents.len(), 2);
    assert_eq!(out.documents[0].path, "/a/a.http");
    assert_eq!(out.documents[1].path, "/a/b.http");
    assert_eq!(out.folders, vec!["/a"]);
}

#[test]
fn multiple_operations_on_one_endpoint_share_a_directory() {
    let schema = OpenApi {
        paths: vec![(
            String::from("/x"),
            vec![(HttpMethod::Get, empty_operation()), (HttpMethod::Post, empty_operation())],
        )],
        components: None,
    };
    let out = convert(&schema).unwrap();
    assert_eq!(out.documents.len(), 1);
    assert_eq!(out.documents[0].path, "/x/x.http");
    assert_eq!(
        out.documents[0].content,
        "GET /x\nHost: {{HTTP_HOST}}\n\nPOST /x\nHost: {{HTTP_HOST}}"
    );
    assert_eq!(out.folders, vec!["/x"]);
}

#[test]
fn unresolvable_path_aborts_the_run() {
    let schema = OpenApi {
        paths: vec![
            (String::from("/ok"), vec![(HttpMethod::Get, empty_operation())]),
            (String::from("/{id}"), vec![(HttpMethod::Get, empty_operation())]),
        ],
        components: None,
    };
    let err = convert(&schema).unwrap_err();
    assert_eq!(err.path, "/{id}");
}

#[test]
fn bearer_scheme_adds_the_authorization_line() {
    let op = Operation {
        parameters: None,
        request_body: None,
        security: Some(vec![vec![(String::from("bearerAuth"), Vec::new())]]),
    };
    let schema = OpenApi {
        paths: vec![(String::from("/secure"), vec![(HttpMethod::Get, op)])],
        components: Some(Components {
            security_schemes: Some(vec![(
                String::from("bearerAuth"),
                SecuritySchema::BearerToken(SecuritySchemaBearerToken {
                    scheme_type: SecurityType::Http,
                }),
            )]),
        }),
    };
    let out = convert(&schema).unwrap();
    assert_eq!(
        out.documents[0].content,
        "GET /secure\nHost: {{HTTP_HOST}}\nAuthorization: Bearer {{TOKEN}}"
    );
    assert!(out.warnings.is_empty());
}

#[test]
fn api_key_scheme_adds_a_security_comment() {
    let op = Operation {
        parameters: None,
        request_body: None,
        security: Some(vec![vec![(String::from("apiKeyAuth"), Vec::new())]]),
    };
    let schema = OpenApi {
        paths: vec![(String::from("/secure"), vec![(HttpMethod::Get, op)])],
        components: Some(Components {
            security_schemes: Some(vec![(
                String::from("apiKeyAuth"),
                SecuritySchema::ApiKey(SecuritySchemaApiKey {
                    scheme_type: SecurityType::ApiKey,
                    name: String::from("X-Key"),
                    location: SecurityTokenLocation::Header,
                }),
            )]),
        }),
    };
    let out = convert(&schema).unwrap();
    assert_eq!(
        out.documents[0].content,
        "# Security\n#  - X-Key: String\n#\nGET /secure\nHost: {{HTTP_HOST}}"
    );
}

#[test]
fn unknown_scheme_shape_is_ignored_silently() {
    let op = Operation {
        parameters: None,
        request_body: None,
        security: Some(vec![vec![(String::from("odd"), Vec::new())]]),
    };
    let schema = OpenApi {
        paths: vec![(String::from("/secure"), vec![(HttpMethod::Get, op)])],
        components: Some(Components {
            security_schemes: Some(vec![(String::from("odd"), SecuritySchema::Unknown)]),
        }),
    };
    let out = convert(&schema).unwrap();
    assert_eq!(out.documents[0].content, "GET /secure\nHost: {{HTTP_HOST}}");
    assert!(out.warnings.is_empty());
}

#[test]
fn missing_scheme_definition_warns_but_completes() {
    let op = Operation {
        parameters: None,
        request_body: None,
        security: Some(vec![vec![(String::from("ghost"), Vec::new())]]),
    };
    let schema = OpenApi {
        paths: vec![(String::from("/secure"), vec![(HttpMethod::Get, op)])],
        components: Some(Components { security_schemes: Some(Vec::new()) }),
    };
    let out = convert(&schema).unwrap();
    assert_eq!(out.documents.len(), 1);
    assert_eq!(out.documents[0].content, "GET /secure\nHost: {{HTTP_HOST}}");
    assert_eq!(out.warnings, vec![Warning::SecurityLookup(String::from("ghost"))]);
}

#[test]
fn json_body_adds_content_type_and_body_comments() {
    let body_schema = Schema::Object(Object {
        properties: Some(vec![
            Property {
                name: String::from("age"),
                schema: Schema::Object(Object {
                    properties: None,
                    required: None,
                    declared_type: PrimitiveType::Integer,
                }),
            },
            Property {
                name: String::from("nick"),
                schema: Schema::Object(Object {
                    properties: None,
                    required: None,
                    declared_type: PrimitiveType::String,
                }),
            },
        ]),
        required: Some(vec![String::from("age")]),
        declared_type: PrimitiveType::Object,
    });
    let op = Operation {
        parameters: None,
        request_body: Some(RequestBody {
            description: None,
            content: vec![(String::from("application/json"), MediaType { schema: Some(body_schema) })],
            required: None,
        }),
        security: None,
    };
    let schema = OpenApi {
        paths: vec![(String::from("/users"), vec![(HttpMethod::Post, op)])],
        components: None,
    };
    let out = convert(&schema).unwrap();
    assert_eq!(
        out.documents[0].content,
        "# Body\n#  - age: Integer\n#  - nick?: String\n#\nPOST /users\nHost: {{HTTP_HOST}}\nContent-Type: application/json"
    );
}

#[test]
fn non_json_media_types_are_skipped() {
    let op = Operation {
        parameters: None,
        request_body: Some(RequestBody {
            description: None,
            content: vec![(String::from("text/plain"), MediaType { schema: None })],
            required: None,
        }),
        security: None,
    };
    let schema = OpenApi {
        paths: vec![(String::from("/notes"), vec![(HttpMethod::Put, op)])],
        components: None,
    };
    let out = convert(&schema).unwrap();
    assert_eq!(out.documents[0].content, "PUT /notes\nHost: {{HTTP_HOST}}");
}

#[test]
fn query_and_path_parameters_group_separately_and_others_drop() {
    let op = Operation {
        parameters: Some(vec![
            Parameters {
                location: String::from("query"),
                name: String::from("limit"),
                required: Some(false),
                default: Some(String::from("10")),
            },
            path_parameter("id"),
            Parameters {
                location: String::from("header"),
                name: String::from("X-Trace"),
                required: Some(true),
                default: None,
            },
        ]),
        request_body: None,
        security: None,
    };
    let schema = OpenApi {
        paths: vec![(String::from("/users/{id}"), vec![(HttpMethod::Get, op)])],
        components: None,
    };
    let out = convert(&schema).unwrap();
    assert_eq!(
        out.documents[0].content,
        "# Query\n#  - limit?: String\n#\n# Parameters\n#  - id: String\n#\nGET /users/{id}\nHost: {{HTTP_HOST}}"
    );
}

#[test]
fn request_line_round_trip_recovers_method_and_path() {
    let op = Operation {
        parameters: Some(vec![path_parameter("id")]),
        request_body: None,
        security: Some(vec![vec![(String::from("bearerAuth"), Vec::new())]]),
    };
    let comps = Some(Components {
        security_schemes: Some(vec![(
            String::from("bearerAuth"),
            SecuritySchema::BearerToken(SecuritySchemaBearerToken {
                scheme_type: SecurityType::Http,
            }),
        )]),
    });
    let names = Names::new(&String::from("/users/{id}")).unwrap();
    let (data, warnings) = HttpData::new(&names, &op, &HttpMethod::Patch, &comps);
    assert!(warnings.is_empty());
    let block = data.get_formatted();
    let line = extract_request_line(&block).unwrap();
    assert_eq!(line, "PATCH /users/{id}");
    let (method, path) = parse_request_line(&line).unwrap();
    assert_eq!(method, "PATCH");
    assert_eq!(path, "/users/{id}");
}

#[test]
fn parse_request_line_splits_at_the_first_space() {
    let (method, path) = parse_request_line("GET /a b").unwrap();
    assert_eq!(method, "GET");
    assert_eq!(path, "/a b");
    assert!(parse_request_line("nospace").is_none());
}

#[test]
fn default_block_is_a_bare_get() {
    let data: HttpData = Default::default();
    assert_eq!(data.get_formatted(), "GET \nHost: {{HTTP_HOST}}");
}
