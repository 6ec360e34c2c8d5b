//! The OpenAPI-subset document model the conversion works on, and the
//! schema-type resolver.
//!
//! Callers build these values from the parsed input document. Maps of the
//! input format (paths, media types, scheme tables, requirements) are carried
//! as ordered association lists so that every later phase is deterministic.

use vstd::prelude::*;

verus! {

/// One HTTP method an endpoint defines an operation for.
#[derive(Debug, Clone, Copy, PartialEq, Eq, Structural)]
pub enum HttpMethod {
    Get,
    Post,
    Put,
    Delete,
    Patch,
}

/// The upper-case request-line word for a method.
pub open spec fn method_label(m: HttpMethod) -> Seq<char> {
    match m {
        HttpMethod::Get => "GET"@,
        HttpMethod::Post => "POST"@,
        HttpMethod::Put => "PUT"@,
        HttpMethod::Delete => "DELETE"@,
        HttpMethod::Patch => "PATCH"@,
    }
}

impl HttpMethod {
    /// The textual method as it stands on the request line.
    pub fn get_value(&self) -> (r: String)
        ensures
            r@ == method_label(*self),
    {
        match self {
            HttpMethod::Get => "GET".to_owned(),
            HttpMethod::Post => "POST".to_owned(),
            HttpMethod::Put => "PUT".to_owned(),
            HttpMethod::Delete => "DELETE".to_owned(),
            HttpMethod::Patch => "PATCH".to_owned(),
        }
    }
}

/// A primitive JSON-Schema type.
#[derive(Debug, Clone, Copy, PartialEq, Eq, Structural)]
pub enum PrimitiveType {
    String,
    Number,
    Integer,
    Boolean,
    Array,
    Object,
}

/// The name of a primitive type as it appears in comment lines.
pub open spec fn primitive_label(t: PrimitiveType) -> Seq<char> {
    match t {
        PrimitiveType::String => "String"@,
        PrimitiveType::Number => "Number"@,
        PrimitiveType::Integer => "Integer"@,
        PrimitiveType::Boolean => "Boolean"@,
        PrimitiveType::Array => "Array"@,
        PrimitiveType::Object => "Object"@,
    }
}

impl PrimitiveType {
    /// The type's name as it appears in comment lines.
    pub fn get_value(&self) -> (r: String)
        ensures
            r@ == primitive_label(*self),
    {
        match self {
            PrimitiveType::String => "String".to_owned(),
            PrimitiveType::Number => "Number".to_owned(),
            PrimitiveType::Integer => "Integer".to_owned(),
            PrimitiveType::Boolean => "Boolean".to_owned(),
            PrimitiveType::Array => "Array".to_owned(),
            PrimitiveType::Object => "Object".to_owned(),
        }
    }
}

/// A set of primitive types, one membership flag per type.
#[derive(Debug, Clone, Copy, PartialEq, Eq, Structural)]
pub struct TypeSet {
    pub string: bool,
    pub number: bool,
    pub integer: bool,
    pub boolean: bool,
    pub array: bool,
    pub object: bool,
}

impl TypeSet {
    /// Membership of `t` in the set.
    pub open spec fn has_type(self, t: PrimitiveType) -> bool {
        match t {
            PrimitiveType::String => self.string,
            PrimitiveType::Number => self.number,
            PrimitiveType::Integer => self.integer,
            PrimitiveType::Boolean => self.boolean,
            PrimitiveType::Array => self.array,
            PrimitiveType::Object => self.object,
        }
    }
}

impl View for TypeSet {
    type V = Set<PrimitiveType>;

    open spec fn view(&self) -> Set<PrimitiveType> {
        Set::new(|t: PrimitiveType| self.has_type(t))
    }
}

impl TypeSet {
    /// The empty set of primitive types.
    pub fn new() -> (r: TypeSet)
        ensures
            r@ == Set::<PrimitiveType>::empty(),
    {
        let r = TypeSet {
            string: false,
            number: false,
            integer: false,
            boolean: false,
            array: false,
            object: false,
        };
        proof {
            assert(r@ =~= Set::<PrimitiveType>::empty());
        }
        r
    }

    /// Adds `t` to the set.
    pub fn insert(&mut self, t: PrimitiveType)
        ensures
            final(self)@ == old(self)@.insert(t),
    {
        match t {
            PrimitiveType::String => self.string = true,
            PrimitiveType::Number => self.number = true,
            PrimitiveType::Integer => self.integer = true,
            PrimitiveType::Boolean => self.boolean = true,
            PrimitiveType::Array => self.array = true,
            PrimitiveType::Object => self.object = true,
        }
        proof {
            assert(self@ =~= old(self)@.insert(t));
        }
    }

    /// Whether `t` is in the set.
    pub fn has(&self, t: PrimitiveType) -> (r: bool)
        ensures
            r == self@.contains(t),
    {
        match t {
            PrimitiveType::String => self.string,
            PrimitiveType::Number => self.number,
            PrimitiveType::Integer => self.integer,
            PrimitiveType::Boolean => self.boolean,
            PrimitiveType::Array => self.array,
            PrimitiveType::Object => self.object,
        }
    }
}

/// A plain schema node: declared type, optional object properties, and the
/// names the object requires.
pub struct Object {
    pub properties: Option<Vec<Property>>,
    pub required: Option<Vec<String>>,
    pub declared_type: PrimitiveType,
}

/// One named property of an object schema.
pub struct Property {
    pub name: String,
    pub schema: Schema,
}

/// A schema node: either one plain node or a composition of plain nodes.
pub enum Schema {
    Object(Object),
    AllOf { members: Vec<Object> },
    AnyOf { members: Vec<Object> },
    OneOf { members: Vec<Object> },
    Not { members: Vec<Object> },
}

/// The declared types of a composition's member schemas, as a set.
pub open spec fn member_types(members: Seq<Object>) -> Set<PrimitiveType> {
    Set::new(
        |t: PrimitiveType|
            exists|i: int| 0 <= i < members.len() && members[i].declared_type == t,
    )
}

/// The set of primitive types reachable through a schema node. Composition
/// keywords all contribute the union of their members' declared types; this
/// deliberately unions even for `allOf` and `not`, as the conversion only
/// documents which shapes a value may take.
pub open spec fn schema_types(s: Schema) -> Set<PrimitiveType> {
    match s {
        Schema::Object(o) => Set::<PrimitiveType>::empty().insert(o.declared_type),
        Schema::AllOf { members } => member_types(members@),
        Schema::AnyOf { members } => member_types(members@),
        Schema::OneOf { members } => member_types(members@),
        Schema::Not { members } => member_types(members@),
    }
}

/// The declared types of every member, collected into one set.
fn types_of_members(members: &Vec<Object>) -> (r: TypeSet)
    ensures
        r@ == member_types(members@),
{
    let mut r = TypeSet::new();
    let mut i: usize = 0;
    proof {
        assert(r@ =~= member_types(members@.take(0)));
    }
    while i < members.len()
        invariant
            i <= members.len(),
            r@ == member_types(members@.take(i as int)),
        decreases members.len() - i,
    {
        r.insert(members[i].declared_type);
        proof {
            assert forall|t: PrimitiveType|
                member_types(members@.take(i + 1)).contains(t) implies member_types(
                members@.take(i as int),
            ).insert(members@[i as int].declared_type).contains(t) by {
                let j = choose|j: int|
                    0 <= j < members@.take(i + 1).len() && (#[trigger] members@.take(
                        i + 1,
                    )[j]).declared_type == t;
                if j < i {
                    assert(members@.take(i as int)[j].declared_type == t);
                }
            }
            assert forall|t: PrimitiveType|
                member_types(members@.take(i as int)).insert(
                    members@[i as int].declared_type,
                ).contains(t) implies member_types(members@.take(i + 1)).contains(t) by {
                if member_types(members@.take(i as int)).contains(t) {
                    let j = choose|j: int|
                        0 <= j < members@.take(i as int).len() && members@.take(
                            i as int,
                        )[j].declared_type == t;
                    assert(members@.take(i + 1)[j].declared_type == t);
                } else {
                    assert(members@.take(i + 1)[i as int].declared_type == t);
                }
            }
            assert(member_types(members@.take(i + 1)) =~= member_types(
                members@.take(i as int),
            ).insert(members@[i as int].declared_type));
        }
        i = i + 1;
    }
    proof {
        assert(members@.take(members@.len() as int) =~= members@);
    }
    r
}

impl Schema {
    /// The set of primitive types this node can take: the plain node's own
    /// declared type, or the union of the members' declared types for the
    /// composition keywords. Only the immediate composition level
    /// contributes; nested properties are resolved on their own when body
    /// parameters are built.
    pub fn get_all_types(&self) -> (r: TypeSet)
        ensures
            r@ == schema_types(*self),
    {
        match self {
            Schema::Object(o) => {
                let mut r = TypeSet::new();
                r.insert(o.declared_type);
                r
            },
            Schema::AllOf { members } => types_of_members(members),
            Schema::AnyOf { members } => types_of_members(members),
            Schema::OneOf { members } => types_of_members(members),
            Schema::Not { members } => types_of_members(members),
        }
    }
}

/// LAW. Resolving a schema node that holds at least one plain node yields
/// at least one primitive type. (A composition with an empty member list is
/// the one shape that resolves to nothing.)
pub proof fn lemma_schema_types_nonempty(s: Schema)
    requires
        match s {
            Schema::Object(_) => true,
            Schema::AllOf { members } => members@.len() > 0,
            Schema::AnyOf { members } => members@.len() > 0,
            Schema::OneOf { members } => members@.len() > 0,
            Schema::Not { members } => members@.len() > 0,
        },
    ensures
        schema_types(s) != Set::<PrimitiveType>::empty(),
{
    match s {
        Schema::Object(o) => {
            assert(schema_types(s).contains(o.declared_type));
        },
        Schema::AllOf { members } => {
            assert(member_types(members@).contains(members@[0].declared_type));
        },
        Schema::AnyOf { members } => {
            assert(member_types(members@).contains(members@[0].declared_type));
        },
        Schema::OneOf { members } => {
            assert(member_types(members@).contains(members@[0].declared_type));
        },
        Schema::Not { members } => {
            assert(member_types(members@).contains(members@[0].declared_type));
        },
    }
}

/// One declared operation parameter. Only the `query` and `path` locations
/// are meaningful to the conversion; a parameter at any other location is
/// dropped.
pub struct Parameters {
    pub location: String,
    pub name: String,
    pub required: Option<bool>,
    pub default: Option<String>,
}

/// The request body declared for an operation, keyed by media type.
pub struct RequestBody {
    pub description: Option<String>,
    pub content: Vec<(String, MediaType)>,
    pub required: Option<bool>,
}

/// The schema attached to one media type of a request body.
pub struct MediaType {
    pub schema: Option<Schema>,
}

/// One security requirement: scheme names (each with its scopes) of which,
/// by convention, the first names the scheme to use.
pub type SecurityRequirement = Vec<(String, Vec<String>)>;

/// How a security scheme carries its token.
#[derive(Debug, Clone, Copy, PartialEq, Eq, Structural)]
pub enum SecurityType {
    ApiKey,
    Http,
}

/// Where an API-key scheme expects its token.
#[derive(Debug, Clone, Copy, PartialEq, Eq, Structural)]
pub enum SecurityTokenLocation {
    Query,
    Header,
    Cookie,
}

/// The location's name as it appears in comment lines.
pub open spec fn location_label(l: SecurityTokenLocation) -> Seq<char> {
    match l {
        SecurityTokenLocation::Query => "Query"@,
        SecurityTokenLocation::Header => "Header"@,
        SecurityTokenLocation::Cookie => "Cookie"@,
    }
}

impl SecurityTokenLocation {
    /// The location's name as it appears in comment lines.
    pub fn get_value(&self) -> (r: String)
        ensures
            r@ == location_label(*self),
    {
        match self {
            SecurityTokenLocation::Query => "Query".to_owned(),
            SecurityTokenLocation::Header => "Header".to_owned(),
            SecurityTokenLocation::Cookie => "Cookie".to_owned(),
        }
    }
}

/// An API-key security scheme: a named token at a declared location.
pub struct SecuritySchemaApiKey {
    pub scheme_type: SecurityType,
    pub name: String,
    pub location: SecurityTokenLocation,
}

/// A bearer-token security scheme.
pub struct SecuritySchemaBearerToken {
    pub scheme_type: SecurityType,
}

/// A declared security scheme. Shapes the conversion does not support are
/// carried as `Unknown` and ignored.
pub enum SecuritySchema {
    ApiKey(SecuritySchemaApiKey),
    BearerToken(SecuritySchemaBearerToken),
    Unknown,
}

/// The document's reusable components: its security-scheme table, as an
/// ordered list of (name, scheme) entries.
pub struct Components {
    pub security_schemes: Option<Vec<(String, SecuritySchema)>>,
}

/// One API operation on a path.
pub struct Operation {
    pub parameters: Option<Vec<Parameters>>,
    pub request_body: Option<RequestBody>,
    pub security: Option<Vec<SecurityRequirement>>,
}

/// The parsed input document: endpoints with their operations, in document
/// order, and the optional components table.
pub struct OpenApi {
    pub paths: Vec<(String, Vec<(HttpMethod, Operation)>)>,
    pub components: Option<Components>,
}

} // verus!
