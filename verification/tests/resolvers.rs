use open_api_to_http::comment::{get_formatted_comment, Comment, CommentsHolder};
use open_api_to_http::diag::Warning;
use open_api_to_http::http_data::get_auth_schema;
use open_api_to_http::open_api::{
    HttpMethod, Object, PrimitiveType, Schema, SecurityRequirement, SecuritySchema,
    SecuritySchemaApiKey, SecuritySchemaBearerToken, SecurityTokenLocation, SecurityType,
    TypeSet,
};

fn plain_object(t: PrimitiveType) -> Object {
    Object { properties: None, required: None, declared_type: t }
}

fn only(t: PrimitiveType) -> TypeSet {
    let mut ts = TypeSet::new();
    ts.insert(t);
    ts
}

#[test]
fn one_of_resolves_to_the_union_of_member_types() {
    let schema = Schema::OneOf {
        members: vec![
            plain_object(PrimitiveType::String),
            plain_object(PrimitiveType::Integer),
        ],
    };
    let types = schema.get_all_types();
    assert!(types.has(PrimitiveType::String));
    assert!(types.has(PrimitiveType::Integer));
    assert!(!types.has(PrimitiveType::Number));
    assert!(!types.has(PrimitiveType::Boolean));
    assert!(!types.has(PrimitiveType::Array));
    assert!(!types.has(PrimitiveType::Object));
}

#[test]
fn plain_schema_resolves_to_its_declared_type() {
    let schema = Schema::Object(plain_object(PrimitiveType::Boolean));
    assert_eq!(schema.get_all_types(), only(PrimitiveType::Boolean));
}

#[test]
fn all_of_unions_duplicate_types_once() {
    let schema = Schema::AllOf {
        members: vec![
            plain_object(PrimitiveType::String),
            plain_object(PrimitiveType::String),
        ],
    };
    assert_eq!(schema.get_all_types(), only(PrimitiveType::String));
}

#[test]
fn not_still_contributes_member_types() {
    let schema = Schema::Not { members: vec![plain_object(PrimitiveType::Array)] };
    assert_eq!(schema.get_all_types(), only(PrimitiveType::Array));
}

fn api_key_table() -> Vec<(String, SecuritySchema)> {
    vec![(
        String::from("apiKeyAuth"),
        SecuritySchema::ApiKey(SecuritySchemaApiKey {
            scheme_type: SecurityType::ApiKey,
            name: String::from("X-Key"),
            location: SecurityTokenLocation::Header,
        }),
    )]
}

#[test]
fn declared_scheme_is_found_without_warnings() {
    let options: Vec<SecurityRequirement> =
        vec![vec![(String::from("apiKeyAuth"), Vec::new())]];
    let table = api_key_table();
    let (scheme, warnings) = get_auth_schema(&options, &table);
    match scheme {
        Some(SecuritySchema::ApiKey(k)) => {
            assert_eq!(k.name, "X-Key");
        }
        _ => panic!("expected the declared API key scheme"),
    }
    assert!(warnings.is_empty());
}

#[test]
fn unknown_scheme_name_yields_exactly_one_warning() {
    let options: Vec<SecurityRequirement> = vec![vec![(String::from("missing"), Vec::new())]];
    let table = api_key_table();
    let (scheme, warnings) = get_auth_schema(&options, &table);
    assert!(scheme.is_none());
    assert_eq!(warnings, vec![Warning::SecurityLookup(String::from("missing"))]);
}

#[test]
fn empty_requirement_list_is_silent() {
    let options: Vec<SecurityRequirement> = Vec::new();
    let table = api_key_table();
    let (scheme, warnings) = get_auth_schema(&options, &table);
    assert!(scheme.is_none());
    assert!(warnings.is_empty());
}

#[test]
fn requirements_without_names_warn_once() {
    let options: Vec<SecurityRequirement> = vec![Vec::new()];
    let table = api_key_table();
    let (scheme, warnings) = get_auth_schema(&options, &table);
    assert!(scheme.is_none());
    assert_eq!(warnings, vec![Warning::NoSecurityMatch]);
}

#[test]
fn first_named_requirement_wins() {
    let options: Vec<SecurityRequirement> = vec![
        Vec::new(),
        vec![(String::from("bearer"), Vec::new())],
        vec![(String::from("apiKeyAuth"), Vec::new())],
    ];
    let mut table = api_key_table();
    table.push((
        String::from("bearer"),
        SecuritySchema::BearerToken(SecuritySchemaBearerToken {
            scheme_type: SecurityType::Http,
        }),
    ));
    let (scheme, warnings) = get_auth_schema(&options, &table);
    assert!(matches!(scheme, Some(SecuritySchema::BearerToken(_))));
    assert!(warnings.is_empty());
}

#[test]
fn method_words_are_upper_case() {
    assert_eq!(HttpMethod::Get.get_value(), "GET");
    assert_eq!(HttpMethod::Post.get_value(), "POST");
    assert_eq!(HttpMethod::Put.get_value(), "PUT");
    assert_eq!(HttpMethod::Delete.get_value(), "DELETE");
    assert_eq!(HttpMethod::Patch.get_value(), "PATCH");
}

#[test]
fn type_and_location_labels() {
    assert_eq!(PrimitiveType::Integer.get_value(), "Integer");
    assert_eq!(PrimitiveType::String.get_value(), "String");
    assert_eq!(SecurityTokenLocation::Header.get_value(), "Header");
    assert_eq!(SecurityTokenLocation::Cookie.get_value(), "Cookie");
}

#[test]
fn optional_comment_gets_a_question_mark() {
    let c = Comment {
        possible_types: only(PrimitiveType::String),
        name: String::from("id"),
        required: Some(false),
        default: None,
    };
    assert_eq!(c.get_formatted(), "id?: String");
}

#[test]
fn required_and_unmarked_comments_have_no_question_mark() {
    let required = Comment {
        possible_types: only(PrimitiveType::Number),
        name: String::from("n"),
        required: Some(true),
        default: None,
    };
    assert_eq!(required.get_formatted(), "n: Number");
    let unmarked = Comment {
        possible_types: only(PrimitiveType::Number),
        name: String::from("n"),
        required: None,
        default: None,
    };
    assert_eq!(unmarked.get_formatted(), "n: Number");
}

#[test]
fn comment_types_join_in_declaration_order() {
    let mut ts = TypeSet::new();
    ts.insert(PrimitiveType::Integer);
    ts.insert(PrimitiveType::String);
    let c = Comment {
        possible_types: ts,
        name: String::from("v"),
        required: Some(true),
        default: None,
    };
    assert_eq!(c.get_formatted(), "v: String,Integer");
}

#[test]
fn comment_group_renders_heading_lines_and_closer() {
    let c = Comment {
        possible_types: only(PrimitiveType::String),
        name: String::from("id"),
        required: Some(false),
        default: None,
    };
    let rendered = get_formatted_comment(&vec![c], "Parameters");
    assert_eq!(rendered, "# Parameters\n#  - id?: String\n#");
}

#[test]
fn empty_holder_renders_nothing() {
    let holder = CommentsHolder {
        query: Vec::new(),
        parameters: Vec::new(),
        body: Vec::new(),
        security: Vec::new(),
    };
    assert_eq!(holder.get_formatted(), "");
}

#[test]
fn holder_groups_are_separated_by_line_breaks() {
    let q = Comment {
        possible_types: only(PrimitiveType::String),
        name: String::from("q"),
        required: Some(true),
        default: None,
    };
    let p = Comment {
        possible_types: only(PrimitiveType::String),
        name: String::from("p"),
        required: Some(true),
        default: None,
    };
    let holder = CommentsHolder {
        query: vec![q],
        parameters: vec![p],
        body: Vec::new(),
        security: Vec::new(),
    };
    assert_eq!(
        holder.get_formatted(),
        "# Query\n#  - q: String\n#\n# Parameters\n#  - p: String\n#"
    );
}
