//! Path resolution: from a raw endpoint path to the canonical file name,
//! file path and folder chain its request blocks are stored under.

use crate::comment::{
    holder_text, is_comment_line, lemma_holder_lines_comment, no_newline_names, Comment,
    CommentsHolder,
};
use crate::diag::{warning_views, PathResolutionError, Warning, WarningView};
use crate::open_api::{
    method_label, schema_types, Components, HttpMethod, MediaType, Object, Operation, Parameters,
    Property, Schema, SecurityRequirement, SecuritySchema, SecuritySchemaApiKey, TypeSet,
};
use crate::text::{
    first_index_of, has_char, join_strings, joined, lemma_concat_no_char, lemma_filter_agree,
    lemma_filter_elements, lemma_first_index_append, lemma_first_index_of,
    lemma_join_split_roundtrip, lemma_joined_push, lemma_split_append, lemma_split_char_no_sep,
    lemma_split_joined, lemma_split_no_sep_single, lemma_splits_concat_append, split_char,
    split_string, splits_concat, string_has_char,
};
use vstd::prelude::*;

verus! {

/// A path-parameter segment: `{`, a name, and a `}` somewhere after it.
pub open spec fn is_param_seg(s: Seq<char>) -> bool {
    s.len() > 0 && s[0] == '{' && has_char(s, '}')
}

/// A segment that survives into file and folder names: non-empty and not a
/// path parameter.
pub open spec fn kept_seg(s: Seq<char>) -> bool {
    s.len() > 0 && !is_param_seg(s)
}

/// The segments of an endpoint path that survive into file and folder names.
pub open spec fn kept_segments(path: Seq<char>) -> Seq<Seq<char>> {
    split_char(path, '/').filter(|s: Seq<char>| kept_seg(s))
}

/// True when the path segment is a path parameter such as `{id}`.
pub fn is_query_param(subs: &str) -> (r: bool)
    ensures
        r == is_param_seg(subs@),
{
    if subs.is_empty() {
        return false;
    }
    if subs.get_char(0) != '{' {
        return false;
    }
    string_has_char(subs, '}')
}

/// The names an endpoint's output is stored under.
#[derive(Debug)]
pub struct Names {
    /// Cumulative folder paths leading to the file, shortest first.
    pub folders: Vec<String>,
    /// The kept segments joined by `/`, with a leading `/`.
    pub file_path: String,
    /// The last kept segment.
    pub file_name: String,
    /// The raw endpoint path, as it stands on the request line.
    pub http_path: String,
}

/// The folder chain of the kept segments: element `i` joins the first
/// `i + 1` segments under the leading `/` that all generated paths carry,
/// and the last kept segment names no folder.
pub open spec fn folder_chain(kept: Seq<Seq<char>>) -> Seq<Seq<char>>
    recommends
        kept.len() > 0,
{
    Seq::new((kept.len() - 1) as nat, |i: int| "/"@ + joined(kept.take(i + 1), "/"@))
}

/// What it means for `n` to resolve the endpoint path `path`.
pub open spec fn resolves(path: Seq<char>, n: Names) -> bool {
    let kept = kept_segments(path);
    &&& kept.len() > 0
    &&& n.http_path@ == path
    &&& n.file_path@ == "/"@ + joined(kept, "/"@)
    &&& n.file_name@ == kept.last()
    &&& n.folders.deep_view() == folder_chain(kept)
}

impl Names {
    /// Resolves a raw endpoint path: splits it on `/`, drops empty and
    /// path-parameter segments, and derives the file path, the file name and
    /// the folder chain from what is left. A path with no kept segment at
    /// all cannot name a file and is reported as an error.
    pub fn new(value: &String) -> (r: Result<Names, PathResolutionError>)
        ensures
            match r {
                Ok(n) => resolves(value@, n),
                Err(e) => kept_segments(value@).len() == 0 && e.path@ == value@,
            },
    {
        let raw = split_string(value.as_str(), '/');
        let ghost pred = |s: Seq<char>| kept_seg(s);
        let mut splits: Vec<String> = Vec::new();
        let mut i: usize = 0;
        proof {
            reveal(Seq::filter);
            assert(raw.deep_view().take(0) =~~= Seq::<Seq<char>>::empty());
            assert(splits.deep_view() =~~= raw.deep_view().take(0).filter(pred));
        }
        while i < raw.len()
            invariant
                i <= raw.len(),
                raw.deep_view() == split_char(value@, '/'),
                pred == (|s: Seq<char>| kept_seg(s)),
                splits.deep_view() == raw.deep_view().take(i as int).filter(pred),
            decreases raw.len() - i,
        {
            let seg = &raw[i];
            let keep = !seg.as_str().is_empty() && !is_query_param(seg.as_str());
            proof {
                reveal(Seq::filter);
                assert(raw.deep_view()[i as int] == raw@[i as int]@);
                assert(raw.deep_view().take(i + 1).drop_last() =~~= raw.deep_view().take(i as int));
                assert(raw.deep_view().take(i + 1).last() == raw@[i as int]@);
            }
            if keep {
                let ghost before = splits.deep_view();
                splits.push(seg.clone());
                proof {
                    assert(splits.deep_view() =~~= before.push(raw@[i as int]@));
                }
            }
            i = i + 1;
        }
        proof {
            assert(raw.deep_view().take(raw@.len() as int) =~~= raw.deep_view());
        }
        let ghost kept = kept_segments(value@);
        if splits.len() == 0 {
            return Err(PathResolutionError { path: value.clone() });
        }
        let joined_segments = join_strings(&splits, "/");
        let mut file_path = "/".to_owned();
        file_path.append(joined_segments.as_str());
        let file_name = splits[splits.len() - 1].clone();
        proof {
            assert(file_name@ == kept.last());
        }
        let mut folders: Vec<String> = Vec::new();
        let last: usize = splits.len() - 1;
        let mut j: usize = 0;
        proof {
            assert(folders.deep_view() =~~= Seq::new(
                0,
                |k: int| "/"@ + joined(kept.take(k + 1), "/"@),
            ));
        }
        while j < last
            invariant
                j <= last,
                last == splits.len() - 1,
                splits.len() >= 1,
                splits.deep_view() == kept,
                kept == kept_segments(value@),
                folders.len() == j,
                folders.deep_view() == Seq::new(
                    j as nat,
                    |k: int| "/"@ + joined(kept.take(k + 1), "/"@),
                ),
            decreases last - j,
        {
            let ghost before = folders.deep_view();
            if j == 0 {
                let mut f = "/".to_owned();
                f.append(splits[0].as_str());
                folders.push(f);
                proof {
                    assert(kept.take(1) =~~= seq![kept[0]]);
                    assert(joined(kept.take(1), "/"@) == kept[0]);
                    assert(folders.deep_view() =~~= before.push("/"@ + kept[0]));
                }
            } else {
                let mut f = folders[j - 1].clone();
                proof {
                    assert(f@ == before[j - 1]);
                    assert(f@ == "/"@ + joined(kept.take(j as int), "/"@));
                }
                f.append("/");
                f.append(splits[j].as_str());
                proof {
                    lemma_joined_push(kept.take(j as int), "/"@, kept[j as int]);
                    assert(kept.take(j + 1) =~~= kept.take(j as int).push(kept[j as int]));
                    assert(f@ =~= "/"@ + joined(kept.take(j + 1), "/"@));
                }
                folders.push(f);
                proof {
                    assert(folders.deep_view() =~~= before.push(
                        "/"@ + joined(kept.take(j + 1), "/"@),
                    ));
                }
            }
            proof {
                assert(folders.deep_view() =~~= Seq::new(
                    (j + 1) as nat,
                    |k: int| "/"@ + joined(kept.take(k + 1), "/"@),
                ));
            }
            j = j + 1;
        }
        let n = Names { folders, file_path, file_name, http_path: value.clone() };
        proof {
            assert(n.folders.deep_view() =~~= folder_chain(kept));
        }
        Ok(n)
    }
}

/// `a` is a strict prefix of `b`.
pub open spec fn is_strict_prefix(a: Seq<char>, b: Seq<char>) -> bool {
    a.len() < b.len() && a == b.take(a.len() as int)
}

/// LAW. For every resolved endpoint, the folder list is a strictly
/// increasing prefix chain, and no segment of any folder is a
/// path-parameter segment.
pub proof fn lemma_folders_prefix_chain(path: Seq<char>, n: Names)
    requires
        resolves(path, n),
    ensures
        forall|i: int|
            0 <= i < n.folders.deep_view().len() - 1 ==> is_strict_prefix(
                #[trigger] n.folders.deep_view()[i],
                n.folders.deep_view()[i + 1],
            ),
        forall|i: int, j: int|
            0 <= i < n.folders.deep_view().len() && 0 <= j < split_char(
                n.folders.deep_view()[i],
                '/',
            ).len() ==> !is_param_seg(#[trigger] split_char(n.folders.deep_view()[i], '/')[j]),
{
    let split = split_char(path, '/');
    let pred = |s: Seq<char>| kept_seg(s);
    let kept = kept_segments(path);
    let dv = n.folders.deep_view();
    assert(kept == split.filter(pred));
    assert forall|i: int| 0 <= i < kept.len() implies kept_seg(#[trigger] kept[i]) by {
        split.lemma_filter_pred(pred, i);
    }
    lemma_split_char_no_sep(path, '/');
    lemma_filter_elements(split, pred);
    assert forall|i: int| 0 <= i < kept.len() implies !has_char(#[trigger] kept[i], '/') by {
        assert(split.contains(kept[i]));
        let j = choose|j: int| 0 <= j < split.len() && split[j] == kept[i];
        assert(!has_char(split[j], '/'));
    }
    reveal_strlit("/");
    assert("/"@ =~= seq!['/']);
    assert forall|i: int| 0 <= i < dv.len() - 1 implies is_strict_prefix(
        #[trigger] dv[i],
        dv[i + 1],
    ) by {
        assert(dv[i] == "/"@ + joined(kept.take(i + 1), "/"@));
        assert(dv[i + 1] == "/"@ + joined(kept.take(i + 2), "/"@));
        lemma_joined_push(kept.take(i + 1), "/"@, kept[i + 1]);
        assert(kept.take(i + 2) =~~= kept.take(i + 1).push(kept[i + 1]));
        assert(kept_seg(kept[i + 1]));
        assert(dv[i + 1] =~= dv[i] + "/"@ + kept[i + 1]);
        assert((dv[i] + "/"@ + kept[i + 1]).take(dv[i].len() as int) =~= dv[i]);
    }
    assert forall|i: int, j: int|
        0 <= i < dv.len() && 0 <= j < split_char(dv[i], '/').len() implies !is_param_seg(
        #[trigger] split_char(dv[i], '/')[j],
    ) by {
        let parts = kept.take(i + 1);
        assert(dv[i] == "/"@ + joined(parts, "/"@));
        assert forall|k: int| 0 <= k < parts.len() implies !has_char(#[trigger] parts[k], '/') by {
            assert(parts[k] == kept[k]);
        }
        lemma_join_split_roundtrip(parts, '/');
        assert(joined(parts, "/"@) == joined(parts, seq!['/']));
        lemma_split_append(Seq::empty(), joined(parts, seq!['/']), '/');
        assert(dv[i] =~= Seq::<char>::empty() + seq!['/'] + joined(parts, seq!['/']));
        assert(split_char(Seq::<char>::empty(), '/') =~~= seq![Seq::<char>::empty()]);
        assert(split_char(dv[i], '/') =~~= seq![Seq::<char>::empty()] + parts);
        if j == 0 {
            assert(split_char(dv[i], '/')[0] == Seq::<char>::empty());
        } else {
            assert(split_char(dv[i], '/')[j] == kept[j - 1]);
        }
    }
}

/// LAW. The file path joins the folder chain and the file name: it extends
/// the last folder by `/` and the file name, or is just `/` and the file
/// name when there is no folder.
pub proof fn lemma_file_path_joins_folders(path: Seq<char>, n: Names)
    requires
        resolves(path, n),
    ensures
        n.folders.deep_view().len() == 0 ==> n.file_path@ == "/"@ + n.file_name@,
        n.folders.deep_view().len() > 0 ==> n.file_path@ == n.folders.deep_view().last() + "/"@
            + n.file_name@,
{
    let kept = kept_segments(path);
    let dv = n.folders.deep_view();
    if kept.len() == 1 {
        assert(joined(kept, "/"@) == kept[0]);
        assert(kept.last() == kept[0]);
    } else {
        lemma_joined_push(kept.drop_last(), "/"@, kept.last());
        assert(kept.drop_last().push(kept.last()) =~~= kept);
        assert(dv.last() == "/"@ + joined(kept.take(kept.len() - 1), "/"@));
        assert(kept.take(kept.len() - 1) =~~= kept.drop_last());
        assert(n.file_path@ =~= ("/"@ + joined(kept.drop_last(), "/"@)) + "/"@ + kept.last());
    }
}

/// LAW. Endpoint paths that keep the same segments resolve to the same file
/// path, the same file name and the same folder chain.
pub proof fn lemma_same_kept_same_names(p1: Seq<char>, n1: Names, p2: Seq<char>, n2: Names)
    requires
        resolves(p1, n1),
        resolves(p2, n2),
        kept_segments(p1) == kept_segments(p2),
    ensures
        n1.file_path@ == n2.file_path@,
        n1.file_name@ == n2.file_name@,
        n1.folders.deep_view() == n2.folders.deep_view(),
{
}

/// LAW. Two paths whose raw segments agree except where both sides are
/// dropped anyway (empty or path-parameter segments, however the parameters
/// are named) keep the same segments.
pub proof fn lemma_kept_segments_agree(p1: Seq<char>, p2: Seq<char>)
    requires
        split_char(p1, '/').len() == split_char(p2, '/').len(),
        forall|i: int|
            0 <= i < split_char(p1, '/').len() ==> (#[trigger] split_char(p1, '/')[i]
                == #[trigger] split_char(p2, '/')[i] || (!kept_seg(split_char(p1, '/')[i])
                && !kept_seg(split_char(p2, '/')[i]))),
    ensures
        kept_segments(p1) == kept_segments(p2),
{
    let pred = |s: Seq<char>| kept_seg(s);
    lemma_filter_agree(split_char(p1, '/'), split_char(p2, '/'), pred);
}

/// Index of the first security requirement that names any scheme, or `-1`
/// when none does.
pub open spec fn first_named(opts: Seq<SecurityRequirement>) -> int
    decreases opts.len(),
{
    if opts.len() == 0 {
        -1
    } else if opts[0]@.len() > 0 {
        0
    } else {
        let r = first_named(opts.skip(1));
        if r < 0 {
            -1
        } else {
            r + 1
        }
    }
}

proof fn lemma_first_named_at(opts: Seq<SecurityRequirement>, i: int)
    requires
        0 <= i <= opts.len(),
        forall|j: int| 0 <= j < i ==> (#[trigger] opts[j])@.len() == 0,
        i < opts.len() ==> opts[i]@.len() > 0,
    ensures
        first_named(opts) == if i == opts.len() {
            -1
        } else {
            i
        },
    decreases i,
{
    if i > 0 {
        assert forall|j: int| 0 <= j < i - 1 implies (#[trigger] opts.skip(1)[j])@.len() == 0 by {
            assert(opts.skip(1)[j] == opts[j + 1]);
        }
        assert(i - 1 < opts.skip(1).len() ==> opts.skip(1)[i - 1]@.len() > 0);
        lemma_first_named_at(opts.skip(1), i - 1);
    }
}

/// Index of the first scheme-table entry with the given name, or `-1` when
/// the table does not declare it.
pub open spec fn scheme_index(table: Seq<(String, SecuritySchema)>, name: Seq<char>) -> int
    decreases table.len(),
{
    if table.len() == 0 {
        -1
    } else if table[0].0@ == name {
        0
    } else {
        let r = scheme_index(table.skip(1), name);
        if r < 0 {
            -1
        } else {
            r + 1
        }
    }
}

proof fn lemma_scheme_index_at(table: Seq<(String, SecuritySchema)>, name: Seq<char>, i: int)
    requires
        0 <= i <= table.len(),
        forall|j: int| 0 <= j < i ==> (#[trigger] table[j]).0@ != name,
        i < table.len() ==> table[i].0@ == name,
    ensures
        scheme_index(table, name) == if i == table.len() {
            -1
        } else {
            i
        },
    decreases i,
{
    if i > 0 {
        assert forall|j: int| 0 <= j < i - 1 implies (#[trigger] table.skip(1)[j]).0@ != name by {
            assert(table.skip(1)[j] == table[j + 1]);
        }
        assert(i - 1 < table.skip(1).len() ==> table.skip(1)[i - 1].0@ == name);
        lemma_scheme_index_at(table.skip(1), name, i - 1);
    }
}

/// The scheme the first-match policy selects: the first requirement that
/// names a scheme decides, and only a name the table declares is taken.
pub open spec fn resolved_scheme(
    opts: Seq<SecurityRequirement>,
    table: Seq<(String, SecuritySchema)>,
) -> Option<SecuritySchema> {
    let k = first_named(opts);
    if k < 0 {
        None
    } else {
        let t = scheme_index(table, opts[k]@[0].0@);
        if t < 0 {
            None
        } else {
            Some(table[t].1)
        }
    }
}

/// The warnings one resolution emits: exactly one lookup warning for a name
/// the table lacks, exactly one no-match warning when requirements exist but
/// none names a scheme, silence otherwise (in particular for an empty
/// requirement list).
pub open spec fn resolution_warning_views(
    opts: Seq<SecurityRequirement>,
    table: Seq<(String, SecuritySchema)>,
) -> Seq<WarningView> {
    let k = first_named(opts);
    if opts.len() == 0 {
        Seq::empty()
    } else if k < 0 {
        seq![WarningView::NoSecurityMatch]
    } else if scheme_index(table, opts[k]@[0].0@) < 0 {
        seq![WarningView::SecurityLookup(opts[k]@[0].0@)]
    } else {
        Seq::empty()
    }
}

/// The warning list is exactly what the resolution emits.
pub open spec fn resolution_warnings_ok(
    opts: Seq<SecurityRequirement>,
    table: Seq<(String, SecuritySchema)>,
    ws: Seq<Warning>,
) -> bool {
    warning_views(ws) == resolution_warning_views(opts, table)
}

/// Resolves an operation's security requirements against the document's
/// scheme table: the first requirement that names a scheme wins, and a name
/// the table lacks yields a warning instead of a scheme.
pub fn get_auth_schema<'a>(
    auth_options: &Vec<SecurityRequirement>,
    security_schema: &'a Vec<(String, SecuritySchema)>,
) -> (r: (Option<&'a SecuritySchema>, Vec<Warning>))
    ensures
        (r.0 is Some) == (resolved_scheme(auth_options@, security_schema@) is Some),
        r.0 matches Some(s) ==> Some(*s) == resolved_scheme(auth_options@, security_schema@),
        resolution_warnings_ok(auth_options@, security_schema@, r.1@),
{
    let mut i: usize = 0;
    while i < auth_options.len()
        invariant
            i <= auth_options.len(),
            forall|j: int| 0 <= j < i ==> (#[trigger] auth_options@[j])@.len() == 0,
        decreases auth_options.len() - i,
    {
        if auth_options[i].len() > 0 {
            proof {
                lemma_first_named_at(auth_options@, i as int);
            }
            let name = &auth_options[i][0].0;
            let mut t: usize = 0;
            while t < security_schema.len()
                invariant
                    t <= security_schema.len(),
                    i < auth_options@.len(),
                    first_named(auth_options@) == i as int,
                    name@ == auth_options@[i as int]@[0].0@,
                    forall|j: int| 0 <= j < t ==> (#[trigger] security_schema@[j]).0@ != name@,
                decreases security_schema.len() - t,
            {
                if security_schema[t].0.eq(name) {
                    proof {
                        lemma_scheme_index_at(security_schema@, name@, t as int);
                    }
                    let ws: Vec<Warning> = Vec::new();
                    proof {
                        assert(warning_views(ws@) =~~= Seq::<WarningView>::empty());
                    }
                    return (Some(&security_schema[t].1), ws);
                }
                t = t + 1;
            }
            proof {
                lemma_scheme_index_at(security_schema@, name@, security_schema@.len() as int);
            }
            let mut ws: Vec<Warning> = Vec::new();
            ws.push(Warning::SecurityLookup(name.clone()));
            proof {
                assert(warning_views(ws@) =~~= seq![WarningView::SecurityLookup(name@)]);
            }
            return (None, ws);
        }
        i = i + 1;
    }
    proof {
        lemma_first_named_at(auth_options@, auth_options@.len() as int);
    }
    let mut ws: Vec<Warning> = Vec::new();
    if auth_options.len() > 0 {
        ws.push(Warning::NoSecurityMatch);
        proof {
            assert(warning_views(ws@) =~~= seq![WarningView::NoSecurityMatch]);
        }
    } else {
        proof {
            assert(warning_views(ws@) =~~= Seq::<WarningView>::empty());
        }
    }
    (None, ws)
}

/// The properties of an optional property list.
pub open spec fn props_of(properties: Option<Vec<Property>>) -> Seq<Property> {
    match properties {
        Some(ps) => ps@,
        None => Seq::empty(),
    }
}

/// The names of an optional required-name list.
pub open spec fn reqs_of(required: Option<Vec<String>>) -> Seq<String> {
    match required {
        Some(rs) => rs@,
        None => Seq::empty(),
    }
}

/// `name` occurs in `names`.
pub open spec fn has_name(names: Seq<String>, name: Seq<char>) -> bool {
    exists|i: int| 0 <= i < names.len() && (#[trigger] names[i])@ == name
}

/// The type set holding `String` alone.
pub open spec fn string_only_types() -> TypeSet {
    TypeSet {
        string: true,
        number: false,
        integer: false,
        boolean: false,
        array: false,
        object: false,
    }
}

/// What the body comment derived from property `p` must hold: the property's
/// resolved types, its name, a required flag that is true exactly when the
/// schema requires the name, and an empty default.
pub open spec fn is_body_comment(c: Comment, p: Property, reqs: Seq<String>) -> bool {
    &&& c.possible_types@ == schema_types(p.schema)
    &&& c.name@ == p.name@
    &&& c.required == Some(has_name(reqs, p.name@))
    &&& c.default matches Some(d) && d@ == Seq::<char>::empty()
}

/// Whether `name` stands in the optional required-name list.
fn contains_name(names: &Option<Vec<String>>, name: &String) -> (r: bool)
    ensures
        r == has_name(reqs_of(*names), name@),
{
    match names {
        None => false,
        Some(ns) => {
            let mut i: usize = 0;
            while i < ns.len()
                invariant
                    i <= ns.len(),
                    reqs_of(*names) == ns@,
                    forall|j: int| 0 <= j < i ==> (#[trigger] ns@[j])@ != name@,
                decreases ns.len() - i,
            {
                if ns[i].eq(name) {
                    proof {
                        assert((ns@[i as int])@ == name@);
                        assert(has_name(ns@, name@));
                    }
                    return true;
                }
                i = i + 1;
            }
            proof {
                assert(reqs_of(*names) == ns@);
            }
            false
        },
    }
}

/// One body comment per declared property: its resolved types, and a
/// required flag read off the schema's required-name list.
pub fn create_comment_from_props(
    props: &Option<Vec<Property>>,
    required: &Option<Vec<String>>,
) -> (r: Vec<Comment>)
    ensures
        r@.len() == props_of(*props).len(),
        forall|i: int|
            0 <= i < r@.len() ==> is_body_comment(
                #[trigger] r@[i],
                props_of(*props)[i],
                reqs_of(*required),
            ),
{
    let mut comments: Vec<Comment> = Vec::new();
    match props {
        None => {},
        Some(ps) => {
            let mut i: usize = 0;
            while i < ps.len()
                invariant
                    i <= ps.len(),
                    comments@.len() == i,
                    forall|j: int|
                        0 <= j < i ==> is_body_comment(
                            #[trigger] comments@[j],
                            ps@[j],
                            reqs_of(*required),
                        ),
                decreases ps.len() - i,
            {
                let types = ps[i].schema.get_all_types();
                let req = contains_name(required, &ps[i].name);
                comments.push(
                    Comment {
                        possible_types: types,
                        name: ps[i].name.clone(),
                        required: Some(req),
                        default: Some(String::new()),
                    },
                );
                i = i + 1;
            }
        },
    }
    comments
}

/// The plain nodes a schema contributes body comments for.
pub open spec fn schema_objects(s: Schema) -> Seq<Object> {
    match s {
        Schema::Object(o) => seq![o],
        Schema::AllOf { members } => members@,
        Schema::AnyOf { members } => members@,
        Schema::OneOf { members } => members@,
        Schema::Not { members } => members@,
    }
}

/// The (property, required names) pairs one plain node contributes.
pub open spec fn object_sources(o: Object) -> Seq<(Property, Seq<String>)> {
    props_of(o.properties).map_values(|p: Property| (p, reqs_of(o.required)))
}

/// The pairs a list of plain nodes contributes, in order.
pub open spec fn objects_sources(os: Seq<Object>) -> Seq<(Property, Seq<String>)>
    decreases os.len(),
{
    if os.len() == 0 {
        Seq::empty()
    } else {
        objects_sources(os.drop_last()) + object_sources(os.last())
    }
}

/// Body comments for every plain node of one member list.
fn comments_for_members(members: &Vec<Object>) -> (r: Vec<Comment>)
    ensures
        r@.len() == objects_sources(members@).len(),
        forall|i: int|
            0 <= i < r@.len() ==> is_body_comment(
                #[trigger] r@[i],
                objects_sources(members@)[i].0,
                objects_sources(members@)[i].1,
            ),
{
    let mut comments: Vec<Comment> = Vec::new();
    let mut i: usize = 0;
    proof {
        assert(members@.take(0) =~~= Seq::<Object>::empty());
    }
    while i < members.len()
        invariant
            i <= members.len(),
            comments@.len() == objects_sources(members@.take(i as int)).len(),
            forall|j: int|
                0 <= j < comments@.len() ==> is_body_comment(
                    #[trigger] comments@[j],
                    objects_sources(members@.take(i as int))[j].0,
                    objects_sources(members@.take(i as int))[j].1,
                ),
        decreases members.len() - i,
    {
        let ghost before = comments@;
        let ghost prev = objects_sources(members@.take(i as int));
        let mut cs = create_comment_from_props(&members[i].properties, &members[i].required);
        proof {
            assert(object_sources(members@[i as int]).len() == props_of(
                members@[i as int].properties,
            ).len());
        }
        comments.append(&mut cs);
        proof {
            assert(members@.take(i + 1).drop_last() =~~= members@.take(i as int));
            assert(members@.take(i + 1).last() == members@[i as int]);
            assert(objects_sources(members@.take(i + 1)) =~~= prev + object_sources(
                members@[i as int],
            ));
            assert forall|j: int| 0 <= j < comments@.len() implies is_body_comment(
                #[trigger] comments@[j],
                objects_sources(members@.take(i + 1))[j].0,
                objects_sources(members@.take(i + 1))[j].1,
            ) by {
                if j < prev.len() {
                    assert(comments@[j] == before[j]);
                    assert(objects_sources(members@.take(i + 1))[j] == prev[j]);
                } else {
                    let k = j - prev.len();
                    assert(objects_sources(members@.take(i + 1))[j] == object_sources(
                        members@[i as int],
                    )[k]);
                    assert(object_sources(members@[i as int])[k] == (
                        props_of(members@[i as int].properties)[k],
                        reqs_of(members@[i as int].required),
                    ));
                }
            }
        }
        i = i + 1;
    }
    proof {
        assert(members@.take(members@.len() as int) =~~= members@);
    }
    comments
}

/// Body comments for one schema node: one comment per property of each of
/// its plain nodes.
fn comments_for_schema(schema: &Schema) -> (r: Vec<Comment>)
    ensures
        r@.len() == objects_sources(schema_objects(*schema)).len(),
        forall|i: int|
            0 <= i < r@.len() ==> is_body_comment(
                #[trigger] r@[i],
                objects_sources(schema_objects(*schema))[i].0,
                objects_sources(schema_objects(*schema))[i].1,
            ),
{
    match schema {
        Schema::Object(o) => {
            let r = create_comment_from_props(&o.properties, &o.required);
            proof {
                let os = schema_objects(*schema);
                assert(os =~~= seq![*o]);
                assert(os.drop_last() =~~= Seq::<Object>::empty());
                assert(os.last() == *o);
                assert(objects_sources(os) == objects_sources(os.drop_last()) + object_sources(
                    os.last(),
                ));
                assert(objects_sources(os.drop_last()) =~~= Seq::<(
                    Property,
                    Seq<String>,
                )>::empty());
                assert(Seq::<(Property, Seq<String>)>::empty() + object_sources(*o) =~~=
                    object_sources(*o));
                assert(objects_sources(os) =~~= object_sources(*o));
            }
            r
        },
        Schema::AllOf { members } => comments_for_members(members),
        Schema::AnyOf { members } => comments_for_members(members),
        Schema::OneOf { members } => comments_for_members(members),
        Schema::Not { members } => comments_for_members(members),
    }
}

/// The declared parameters of an operation.
pub open spec fn params_of(op: Operation) -> Seq<Parameters> {
    match op.parameters {
        Some(ps) => ps@,
        None => Seq::empty(),
    }
}

/// The operation's parameters declared at the `query` location, in order.
pub open spec fn query_params(op: Operation) -> Seq<Parameters> {
    params_of(op).filter(|p: Parameters| p.location@ == "query"@)
}

/// The operation's parameters declared at the `path` location, in order.
pub open spec fn path_params(op: Operation) -> Seq<Parameters> {
    params_of(op).filter(|p: Parameters| p.location@ == "path"@)
}

/// An optional string, by its characters.
pub open spec fn opt_view(o: Option<String>) -> Option<Seq<char>> {
    match o {
        Some(s) => Some(s@),
        None => None,
    }
}

/// What the comment for a declared query or path parameter must hold: the
/// parameter's name, its declared required flag and default, and the
/// `String` type (parameter schemas are not resolved further).
pub open spec fn is_param_comment(c: Comment, p: Parameters) -> bool {
    &&& c.possible_types == string_only_types()
    &&& c.name@ == p.name@
    &&& c.required == p.required
    &&& opt_view(c.default) == opt_view(p.default)
}

/// The media entries of an operation's request body.
pub open spec fn content_of(op: Operation) -> Seq<(String, MediaType)> {
    match op.request_body {
        Some(b) => b.content@,
        None => Seq::empty(),
    }
}

/// The operation declares an `application/json` request body entry.
pub open spec fn has_json_body(op: Operation) -> bool {
    exists|i: int|
        0 <= i < content_of(op).len() && (#[trigger] content_of(op)[i]).0@
            == "application/json"@
}

/// The (property, required names) pairs one media entry contributes.
pub open spec fn media_sources(m: MediaType) -> Seq<(Property, Seq<String>)> {
    match m.schema {
        Some(s) => objects_sources(schema_objects(s)),
        None => Seq::empty(),
    }
}

/// The pairs all `application/json` media entries contribute, in order;
/// other media types contribute nothing.
pub open spec fn body_sources(content: Seq<(String, MediaType)>) -> Seq<(Property, Seq<String>)>
    decreases content.len(),
{
    if content.len() == 0 {
        Seq::empty()
    } else {
        body_sources(content.drop_last()) + (if content.last().0@ == "application/json"@ {
            media_sources(content.last().1)
        } else {
            Seq::empty()
        })
    }
}

/// The requirement list and scheme table of an operation, when both exist.
pub open spec fn security_inputs(op: Operation, comps: Option<Components>) -> Option<
    (Seq<SecurityRequirement>, Seq<(String, SecuritySchema)>),
> {
    match comps {
        Some(c) => match (op.security, c.security_schemes) {
            (Some(opts), Some(table)) => Some((opts@, table@)),
            _ => None,
        },
        None => None,
    }
}

/// The warnings building one operation's block emits: those of its security
/// resolution, or none where the operation or the document declares no
/// security.
pub open spec fn op_warning_views(op: Operation, comps: Option<Components>) -> Seq<WarningView> {
    match security_inputs(op, comps) {
        Some(p) => resolution_warning_views(p.0, p.1),
        None => Seq::empty(),
    }
}

/// The comment an API-key scheme turns into: its token name, required, typed
/// `String`, with no default.
pub open spec fn is_api_key_comment(c: Comment, k: SecuritySchemaApiKey) -> bool {
    &&& c.possible_types == string_only_types()
    &&& c.name@ == k.name@
    &&& c.required == Some(true)
    &&& c.default is None
}

/// How a resolved scheme shows up in the block: a bearer token becomes the
/// fixed authorization line, an API key becomes one required security
/// comment, and an unsupported or missing scheme leaves no trace.
pub open spec fn security_effects_ok(d: HttpData, s: Option<SecuritySchema>) -> bool {
    match s {
        Some(SecuritySchema::BearerToken(_)) => (d.auth matches Some(a) && a@
            == "Authorization: Bearer {{TOKEN}}"@) && d.comments.security@.len() == 0,
        Some(SecuritySchema::ApiKey(k)) => d.auth is None && d.comments.security@.len() == 1
            && is_api_key_comment(d.comments.security@[0], k),
        Some(SecuritySchema::Unknown) => d.auth is None && d.comments.security@.len() == 0,
        None => d.auth is None && d.comments.security@.len() == 0,
    }
}

/// The whole contract of building one operation's block descriptor: method,
/// raw path and host carried over; a content-type line exactly for a JSON
/// body; comments matching the declared query and path parameters, the JSON
/// body's properties and the resolved security scheme; and exactly the
/// resolution's warnings.
pub open spec fn builder_ok(
    d: HttpData,
    ws: Seq<Warning>,
    names: Names,
    op: Operation,
    m: HttpMethod,
    comps: Option<Components>,
) -> bool {
    &&& d.method == m
    &&& d.path@ == names.http_path@
    &&& d.host@ == "Host: {{HTTP_HOST}}"@
    &&& (d.content_type is Some) == has_json_body(op)
    &&& (d.content_type matches Some(ct) ==> ct@ == "Content-Type: application/json"@)
    &&& d.comments.query@.len() == query_params(op).len()
    &&& forall|i: int|
        0 <= i < d.comments.query@.len() ==> is_param_comment(
            #[trigger] d.comments.query@[i],
            query_params(op)[i],
        )
    &&& d.comments.parameters@.len() == path_params(op).len()
    &&& forall|i: int|
        0 <= i < d.comments.parameters@.len() ==> is_param_comment(
            #[trigger] d.comments.parameters@[i],
            path_params(op)[i],
        )
    &&& d.comments.body@.len() == body_sources(content_of(op)).len()
    &&& forall|i: int|
        0 <= i < d.comments.body@.len() ==> is_body_comment(
            #[trigger] d.comments.body@[i],
            body_sources(content_of(op))[i].0,
            body_sources(content_of(op))[i].1,
        )
    &&& warning_views(ws) == op_warning_views(op, comps)
    &&& match security_inputs(op, comps) {
        Some(p) => security_effects_ok(d, resolved_scheme(p.0, p.1)),
        None => d.auth is None && d.comments.security@.len() == 0,
    }
}

/// One operation, resolved and ready to render as a request block.
pub struct HttpData {
    pub method: HttpMethod,
    pub path: String,
    pub host: String,
    pub content_type: Option<String>,
    pub auth: Option<String>,
    pub comments: CommentsHolder,
}

impl Default for HttpData {
    /// A GET block with an empty path, the fixed host line, no body, no
    /// authentication and no comments.
    fn default() -> (d: HttpData)
        ensures
            d.method == HttpMethod::Get,
            d.path@ == Seq::<char>::empty(),
            d.host@ == "Host: {{HTTP_HOST}}"@,
            d.content_type is None,
            d.auth is None,
            d.comments.query@.len() == 0,
            d.comments.parameters@.len() == 0,
            d.comments.body@.len() == 0,
            d.comments.security@.len() == 0,
    {
        HttpData {
            method: HttpMethod::Get,
            path: String::new(),
            host: "Host: {{HTTP_HOST}}".to_owned(),
            content_type: None,
            auth: None,
            comments: CommentsHolder {
                query: Vec::new(),
                parameters: Vec::new(),
                body: Vec::new(),
                security: Vec::new(),
            },
        }
    }
}

/// A copy of an optional string.
fn clone_opt_string(o: &Option<String>) -> (r: Option<String>)
    ensures
        opt_view(r) == opt_view(*o),
{
    match o {
        Some(s) => Some(s.clone()),
        None => None,
    }
}

impl HttpData {
    /// Builds the request block descriptor for one operation: the method and
    /// the raw path, the fixed host line, a content-type line exactly when a
    /// JSON body is declared, comments for the query and path parameters and
    /// for the JSON body's properties, and whatever the resolved security
    /// scheme contributes. Warnings met along the way are handed back beside
    /// the descriptor.
    pub fn new(
        names: &Names,
        endpoint_info: &Operation,
        method: &HttpMethod,
        comps: &Option<Components>,
    ) -> (r: (HttpData, Vec<Warning>))
        ensures
            builder_ok(r.0, r.1@, *names, *endpoint_info, *method, *comps),
    {
        let path = names.http_path.clone();
        let host = "Host: {{HTTP_HOST}}".to_owned();

        let mut auth: Option<String> = None;
        let mut security: Vec<Comment> = Vec::new();
        let mut warnings: Vec<Warning> = Vec::new();
        match comps {
            Some(c) => {
                match (&endpoint_info.security, &c.security_schemes) {
                    (Some(auth_options), Some(schemes)) => {
                        proof {
                            assert(security_inputs(*endpoint_info, *comps) matches Some(p) && p.0
                                == auth_options@ && p.1 == schemes@);
                        }
                        let (scheme, ws) = get_auth_schema(auth_options, schemes);
                        warnings = ws;
                        match scheme {
                            Some(s) => {
                                match s {
                                    SecuritySchema::BearerToken(_) => {
                                        auth = Some("Authorization: Bearer {{TOKEN}}".to_owned());
                                    },
                                    SecuritySchema::ApiKey(api_key) => {
                                        security.push(
                                            Comment {
                                                possible_types: TypeSet {
                                                    string: true,
                                                    number: false,
                                                    integer: false,
                                                    boolean: false,
                                                    array: false,
                                                    object: false,
                                                },
                                                name: api_key.name.clone(),
                                                required: Some(true),
                                                default: None,
                                            },
                                        );
                                    },
                                    SecuritySchema::Unknown => {},
                                }
                            },
                            None => {},
                        }
                    },
                    _ => {
                        proof {
                            assert(security_inputs(*endpoint_info, *comps) is None);
                            assert(warning_views(warnings@) =~~= Seq::<WarningView>::empty());
                        }
                    },
                }
            },
            None => {
                proof {
                    assert(security_inputs(*endpoint_info, *comps) is None);
                    assert(warning_views(warnings@) =~~= Seq::<WarningView>::empty());
                }
            },
        }

        let mut query: Vec<Comment> = Vec::new();
        let mut parameters: Vec<Comment> = Vec::new();
        match &endpoint_info.parameters {
            None => {
                proof {
                    reveal(Seq::filter);
                }
            },
            Some(ps) => {
                let query_string = "query".to_owned();
                let path_string = "path".to_owned();
                let mut i: usize = 0;
                proof {
                    reveal(Seq::filter);
                    assert(ps@.take(0) =~~= Seq::<Parameters>::empty());
                }
                while i < ps.len()
                    invariant
                        i <= ps.len(),
                        params_of(*endpoint_info) == ps@,
                        query_string@ == "query"@,
                        path_string@ == "path"@,
                        query@.len() == ps@.take(i as int).filter(
                            |p: Parameters| p.location@ == "query"@,
                        ).len(),
                        forall|j: int|
                            0 <= j < query@.len() ==> is_param_comment(
                                #[trigger] query@[j],
                                ps@.take(i as int).filter(
                                    |p: Parameters| p.location@ == "query"@,
                                )[j],
                            ),
                        parameters@.len() == ps@.take(i as int).filter(
                            |p: Parameters| p.location@ == "path"@,
                        ).len(),
                        forall|j: int|
                            0 <= j < parameters@.len() ==> is_param_comment(
                                #[trigger] parameters@[j],
                                ps@.take(i as int).filter(
                                    |p: Parameters| p.location@ == "path"@,
                                )[j],
                            ),
                    decreases ps.len() - i,
                {
                    let is_query = ps[i].location.eq(&query_string);
                    let is_path = ps[i].location.eq(&path_string);
                    proof {
                        reveal(Seq::filter);
                        reveal_strlit("query");
                        reveal_strlit("path");
                        assert("query"@.len() != "path"@.len());
                        assert(ps@.take(i + 1).drop_last() =~~= ps@.take(i as int));
                        assert(ps@.take(i + 1).last() == ps@[i as int]);
                    }
                    if is_query || is_path {
                        let c = Comment {
                            possible_types: TypeSet {
                                string: true,
                                number: false,
                                integer: false,
                                boolean: false,
                                array: false,
                                object: false,
                            },
                            name: ps[i].name.clone(),
                            required: ps[i].required,
                            default: clone_opt_string(&ps[i].default),
                        };
                        if is_query {
                            query.push(c);
                        } else {
                            parameters.push(c);
                        }
                    }
                    i = i + 1;
                }
                proof {
                    assert(ps@.take(ps@.len() as int) =~~= ps@);
                }
            },
        }

        let mut body: Vec<Comment> = Vec::new();
        let mut content_type: Option<String> = None;
        match &endpoint_info.request_body {
            None => {},
            Some(rb) => {
                let json_string = "application/json".to_owned();
                let mut ci: usize = 0;
                proof {
                    assert(rb.content@.take(0) =~~= Seq::<(String, MediaType)>::empty());
                }
                while ci < rb.content.len()
                    invariant
                        ci <= rb.content.len(),
                        content_of(*endpoint_info) == rb.content@,
                        json_string@ == "application/json"@,
                        (content_type is Some) == exists|j: int|
                            0 <= j < ci && (#[trigger] rb.content@[j]).0@ == "application/json"@,
                        content_type matches Some(ct) ==> ct@ == "Content-Type: application/json"@,
                        body@.len() == body_sources(rb.content@.take(ci as int)).len(),
                        forall|j: int|
                            0 <= j < body@.len() ==> is_body_comment(
                                #[trigger] body@[j],
                                body_sources(rb.content@.take(ci as int))[j].0,
                                body_sources(rb.content@.take(ci as int))[j].1,
                            ),
                    decreases rb.content.len() - ci,
                {
                    let ghost prev = body_sources(rb.content@.take(ci as int));
                    let ghost before = body@;
                    proof {
                        assert(rb.content@.take(ci + 1).drop_last() =~~= rb.content@.take(
                            ci as int,
                        ));
                        assert(rb.content@.take(ci + 1).last() == rb.content@[ci as int]);
                    }
                    let is_json = rb.content[ci].0.eq(&json_string);
                    if is_json {
                        content_type = Some("Content-Type: application/json".to_owned());
                        match &rb.content[ci].1.schema {
                            Some(schema) => {
                                let mut cs = comments_for_schema(schema);
                                body.append(&mut cs);
                            },
                            None => {},
                        }
                        proof {
                            assert(body_sources(rb.content@.take(ci + 1)) =~~= prev
                                + media_sources(rb.content@[ci as int].1));
                        }
                    } else {
                        proof {
                            assert(body_sources(rb.content@.take(ci + 1)) =~~= prev + Seq::<(
                                Property,
                                Seq<String>,
                            )>::empty());
                            assert(body_sources(rb.content@.take(ci + 1)) =~~= prev);
                        }
                    }
                    proof {
                        let cur = body_sources(rb.content@.take(ci + 1));
                        assert forall|j: int| 0 <= j < body@.len() implies is_body_comment(
                            #[trigger] body@[j],
                            cur[j].0,
                            cur[j].1,
                        ) by {
                            if j < prev.len() {
                                assert(body@[j] == before[j]);
                                assert(cur[j] == prev[j]);
                            } else {
                                assert(cur[j] == media_sources(rb.content@[ci as int].1)[j
                                    - prev.len()]);
                            }
                        }
                    }
                    ci = ci + 1;
                }
                proof {
                    assert(rb.content@.take(rb.content@.len() as int) =~~= rb.content@);
                }
            },
        }

        let data = HttpData {
            method: *method,
            path,
            host,
            content_type,
            auth,
            comments: CommentsHolder { query, parameters, body, security },
        };
        (data, warnings)
    }
}

/// The parts of a rendered request block, one line each, except the comment
/// section which holds its own line breaks; an empty comment section
/// contributes no part at all.
pub open spec fn block_parts(d: HttpData) -> Seq<Seq<char>> {
    (if holder_text(d.comments).len() > 0 {
        seq![holder_text(d.comments)]
    } else {
        Seq::empty()
    }) + seq![method_label(d.method) + " "@ + d.path@, d.host@] + (match d.content_type {
        Some(ct) => seq![ct@],
        None => Seq::empty(),
    }) + (match d.auth {
        Some(a) => seq![a@],
        None => Seq::empty(),
    })
}

/// The full text of one rendered request block.
pub open spec fn formatted(d: HttpData) -> Seq<char> {
    joined(block_parts(d), "\n"@)
}

impl HttpData {
    /// Renders the block: the comment section when there is one, the
    /// `METHOD PATH` request line, the host line, and the content-type and
    /// authorization lines when the operation declared them.
    pub fn get_formatted(&self) -> (r: String)
        ensures
            r@ == formatted(*self),
    {
        let mut output: Vec<String> = Vec::new();
        let comments = self.comments.get_formatted();
        if !comments.as_str().is_empty() {
            output.push(comments);
        }
        let ghost head = (if holder_text(self.comments).len() > 0 {
            seq![holder_text(self.comments)]
        } else {
            Seq::<Seq<char>>::empty()
        });
        proof {
            assert(output.deep_view() =~~= head);
        }
        let mut line = self.method.get_value();
        line.append(" ");
        line.append(self.path.as_str());
        output.push(line);
        output.push(self.host.clone());
        proof {
            assert(output.deep_view() =~~= head + seq![
                method_label(self.method) + " "@ + self.path@,
                self.host@,
            ]);
        }
        match &self.content_type {
            Some(ct) => {
                output.push(ct.clone());
            },
            None => {},
        }
        match &self.auth {
            Some(a) => {
                output.push(a.clone());
            },
            None => {},
        }
        proof {
            assert(output.deep_view() =~~= block_parts(*self));
        }
        join_strings(&output, "\n")
    }
}

/// Splits a request line `METHOD PATH` at its first space: the method word
/// before it, the path after it. A line with no space is no request line.
pub fn parse_request_line(line: &str) -> (r: Option<(String, String)>)
    ensures
        match r {
            Some(mp) => {
                let k = first_index_of(line@, ' ');
                &&& 0 <= k
                &&& mp.0@ == line@.take(k)
                &&& mp.1@ == line@.skip(k + 1)
            },
            None => !has_char(line@, ' '),
        },
{
    let len = line.unicode_len();
    let mut i: usize = 0;
    while i < len
        invariant
            i <= len,
            len == line@.len(),
            forall|j: int| 0 <= j < i ==> line@[j] != ' ',
        decreases len - i,
    {
        if line.get_char(i) == ' ' {
            proof {
                lemma_first_index_of(line@, ' ');
            }
            let method = line.substring_char(0, i).to_owned();
            let path = line.substring_char(i + 1, len).to_owned();
            proof {
                assert(first_index_of(line@, ' ') == i as int);
                assert(line@.subrange(0, i as int) =~= line@.take(i as int));
                assert(line@.subrange(i + 1, len as int) =~= line@.skip(i + 1));
            }
            return Some((method, path));
        }
        i = i + 1;
    }
    proof {
        lemma_first_index_of(line@, ' ');
    }
    None
}

/// LAW. No method word holds a space or a line break, and the word tells
/// the methods apart.
pub proof fn lemma_method_label_facts()
    ensures
        forall|m: HttpMethod| !has_char(#[trigger] method_label(m), ' '),
        forall|m: HttpMethod| !has_char(#[trigger] method_label(m), '\n'),
        forall|m: HttpMethod| (#[trigger] method_label(m)).len() > 0,
        forall|m1: HttpMethod, m2: HttpMethod|
            method_label(m1) == method_label(m2) ==> m1 == m2,
{
    reveal_strlit("GET");
    reveal_strlit("POST");
    reveal_strlit("PUT");
    reveal_strlit("DELETE");
    reveal_strlit("PATCH");
    assert forall|m: HttpMethod| !has_char(#[trigger] method_label(m), ' ') by {
        assert forall|i: int| 0 <= i < method_label(m).len() implies method_label(m)[i] != ' ' by {
        }
    }
    assert forall|m: HttpMethod| !has_char(#[trigger] method_label(m), '\n') by {
        assert forall|i: int|
            0 <= i < method_label(m).len() implies method_label(m)[i] != '\n' by {}
    }
    assert forall|m1: HttpMethod, m2: HttpMethod|
        method_label(m1) == method_label(m2) implies m1 == m2 by {
        if m1 != m2 {
            assert(method_label(m1)[0] != method_label(m2)[0] || method_label(m1).len()
                != method_label(m2).len() || method_label(m1)[1] != method_label(m2)[1]);
        }
    }
}

/// Index of the first line that is no comment line, or `-1`.
pub open spec fn first_request_line(lines: Seq<Seq<char>>) -> int
    decreases lines.len(),
{
    if lines.len() == 0 {
        -1
    } else if !is_comment_line(lines[0]) {
        0
    } else {
        let r = first_request_line(lines.skip(1));
        if r < 0 {
            -1
        } else {
            r + 1
        }
    }
}

proof fn lemma_first_request_line_at(lines: Seq<Seq<char>>, i: int)
    requires
        0 <= i <= lines.len(),
        forall|j: int| 0 <= j < i ==> is_comment_line(#[trigger] lines[j]),
        i < lines.len() ==> !is_comment_line(lines[i]),
    ensures
        first_request_line(lines) == if i == lines.len() {
            -1
        } else {
            i
        },
    decreases i,
{
    if i > 0 {
        assert forall|j: int| 0 <= j < i - 1 implies is_comment_line(
            #[trigger] lines.skip(1)[j],
        ) by {
            assert(lines.skip(1)[j] == lines[j + 1]);
        }
        assert(i - 1 < lines.skip(1).len() ==> !is_comment_line(lines.skip(1)[i - 1]));
        lemma_first_request_line_at(lines.skip(1), i - 1);
    }
}

/// After any run of comment lines, the first request line of the
/// concatenation is the first line of what follows.
proof fn lemma_first_request_line_append(a: Seq<Seq<char>>, b: Seq<Seq<char>>)
    requires
        forall|j: int| 0 <= j < a.len() ==> is_comment_line(#[trigger] a[j]),
        b.len() > 0,
        !is_comment_line(b[0]),
    ensures
        first_request_line(a + b) == a.len(),
{
    assert forall|j: int| 0 <= j < a.len() implies is_comment_line(#[trigger] (a + b)[j]) by {
        assert((a + b)[j] == a[j]);
    }
    assert((a + b)[a.len() as int] == b[0]);
    lemma_first_request_line_at(a + b, a.len() as int);
}

/// Finds the request line of a rendered block: the first line that is not
/// part of the leading comment section.
pub fn extract_request_line(block: &str) -> (r: Option<String>)
    ensures
        ({
            let lines = split_char(block@, '\n');
            match r {
                Some(l) => first_request_line(lines) >= 0 && l@ == lines[first_request_line(
                    lines,
                )],
                None => first_request_line(lines) < 0,
            }
        }),
{
    let lines = split_string(block, '\n');
    let mut i: usize = 0;
    while i < lines.len()
        invariant
            i <= lines.len(),
            lines.deep_view() == split_char(block@, '\n'),
            forall|j: int| 0 <= j < i ==> is_comment_line(#[trigger] lines.deep_view()[j]),
        decreases lines.len() - i,
    {
        let line = &lines[i];
        let comment = !line.as_str().is_empty() && line.as_str().get_char(0) == '#';
        proof {
            assert(lines.deep_view()[i as int] == lines@[i as int]@);
            assert(comment == is_comment_line(lines.deep_view()[i as int]));
        }
        if !comment {
            proof {
                lemma_first_request_line_at(lines.deep_view(), i as int);
            }
            return Some(lines[i].clone());
        }
        i = i + 1;
    }
    proof {
        lemma_first_request_line_at(lines.deep_view(), lines.deep_view().len() as int);
    }
    None
}

/// LAW. Re-parsing a rendered block recovers the operation: the block's
/// first non-comment line is exactly `METHOD PATH`, its first space parts
/// the method word from the path, and the word tells the methods apart.
/// Holds of every block whose path and comment names are free of line
/// breaks (either would spill onto further lines and leave no single
/// request line to find).
pub proof fn lemma_block_roundtrip(d: HttpData)
    requires
        !has_char(d.path@, '\n'),
        no_newline_names(d.comments),
    ensures
        ({
            let lines = split_char(formatted(d), '\n');
            let k = first_request_line(lines);
            let label = method_label(d.method);
            &&& 0 <= k < lines.len()
            &&& lines[k] == label + " "@ + d.path@
            &&& first_index_of(lines[k], ' ') == label.len()
            &&& lines[k].take(label.len() as int) == label
            &&& lines[k].skip(label.len() as int + 1) == d.path@
        }),
{
    reveal_strlit("\n");
    reveal_strlit(" ");
    reveal_strlit("GET");
    reveal_strlit("POST");
    reveal_strlit("PUT");
    reveal_strlit("DELETE");
    reveal_strlit("PATCH");
    assert("\n"@ =~= seq!['\n']);
    let parts = block_parts(d);
    let label = method_label(d.method);
    let mline = label + " "@ + d.path@;
    lemma_method_label_facts();
    assert(!has_char(" "@, '\n')) by {
        assert(" "@.len() == 1 && " "@[0] == ' ');
    }
    lemma_concat_no_char(label, " "@, '\n');
    lemma_concat_no_char(label + " "@, d.path@, '\n');
    assert(mline[0] == label[0]);
    assert(label[0] == 'G' || label[0] == 'P' || label[0] == 'D');
    assert(!is_comment_line(mline));
    let chead = (if holder_text(d.comments).len() > 0 {
        seq![holder_text(d.comments)]
    } else {
        Seq::<Seq<char>>::empty()
    });
    let restparts = seq![mline, d.host@] + (match d.content_type {
        Some(ct) => seq![ct@],
        None => Seq::<Seq<char>>::empty(),
    }) + (match d.auth {
        Some(a) => seq![a@],
        None => Seq::<Seq<char>>::empty(),
    });
    assert(parts =~~= chead + restparts);
    assert(parts.len() > 0);
    lemma_split_joined(parts, '\n');
    assert(joined(parts, "\n"@) == joined(parts, seq!['\n']));
    lemma_splits_concat_append(chead, restparts, '\n');
    let clines = splits_concat(chead, '\n');
    assert forall|j: int| 0 <= j < clines.len() implies is_comment_line(#[trigger] clines[j]) by {
        if holder_text(d.comments).len() > 0 {
            lemma_holder_lines_comment(d.comments);
            assert(chead.drop_last() =~~= Seq::<Seq<char>>::empty());
            assert(splits_concat(chead.drop_last(), '\n') == Seq::<Seq<char>>::empty());
            assert(clines =~~= split_char(holder_text(d.comments), '\n'));
        } else {
            assert(clines.len() == 0);
        }
    }
    let rest2 = restparts.skip(1);
    assert(restparts =~~= seq![mline] + rest2);
    lemma_splits_concat_append(seq![mline], rest2, '\n');
    lemma_split_no_sep_single(mline, '\n');
    assert(seq![mline].drop_last() =~~= Seq::<Seq<char>>::empty());
    assert(splits_concat(Seq::<Seq<char>>::empty(), '\n') == Seq::<Seq<char>>::empty());
    assert(splits_concat(seq![mline], '\n') == splits_concat(seq![mline].drop_last(), '\n')
        + split_char(seq![mline].last(), '\n'));
    assert(seq![mline].last() == mline);
    assert(splits_concat(seq![mline], '\n') =~~= seq![mline]);
    let blines = splits_concat(restparts, '\n');
    assert(blines[0] == mline);
    assert(blines.len() > 0);
    lemma_first_request_line_append(clines, blines);
    let lines = split_char(formatted(d), '\n');
    assert(lines == clines + blines);
    let k = first_request_line(lines);
    assert(k == clines.len());
    assert(lines[k] == mline);
    lemma_request_line_roundtrip(d.method, d.path@);
}

/// LAW. Parsing the request line written for a method and a path gives back
/// exactly that method's word and that path.
pub proof fn lemma_request_line_roundtrip(m: HttpMethod, path: Seq<char>)
    ensures
        first_index_of(method_label(m) + " "@ + path, ' ') == method_label(m).len(),
        (method_label(m) + " "@ + path).take(method_label(m).len() as int) == method_label(m),
        (method_label(m) + " "@ + path).skip(method_label(m).len() as int + 1) == path,
{
    lemma_method_label_facts();
    reveal_strlit(" ");
    assert(" "@ =~= seq![' ']);
    let line = method_label(m) + " "@ + path;
    lemma_first_index_append(method_label(m), path, ' ');
    assert(line.take(method_label(m).len() as int) =~= method_label(m));
    assert(line.skip(method_label(m).len() as int + 1) =~= path);
}

} // verus!
