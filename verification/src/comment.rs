//! The documentation comment that precedes a request block: one line per
//! parameter, grouped under a labelled heading per parameter kind.

use crate::open_api::TypeSet;
use crate::text::{
    has_char, join_strings, joined, lemma_concat_no_char, lemma_join_split_roundtrip,
    lemma_joined_no_char, lemma_joined_push, lemma_split_joined, lemma_splits_concat_prop,
    split_char,
};
use vstd::prelude::*;

verus! {

/// Zero or one labels, depending on whether the type is present.
pub open spec fn opt_label(present: bool, label: Seq<char>) -> Seq<Seq<char>> {
    if present {
        seq![label]
    } else {
        Seq::empty()
    }
}

/// The labels of the types in `ts`, in declaration order.
pub open spec fn type_labels(ts: TypeSet) -> Seq<Seq<char>> {
    opt_label(ts.string, "String"@) + opt_label(ts.number, "Number"@) + opt_label(
        ts.integer,
        "Integer"@,
    ) + opt_label(ts.boolean, "Boolean"@) + opt_label(ts.array, "Array"@) + opt_label(
        ts.object,
        "Object"@,
    )
}

/// The labels of the types in `ts`, in declaration order.
fn labels_of(ts: &TypeSet) -> (r: Vec<String>)
    ensures
        r.deep_view() == type_labels(*ts),
{
    let mut r: Vec<String> = Vec::new();
    if ts.string {
        r.push("String".to_owned());
    }
    proof {
        assert(r.deep_view() =~~= opt_label(ts.string, "String"@));
    }
    if ts.number {
        r.push("Number".to_owned());
    }
    proof {
        assert(r.deep_view() =~~= opt_label(ts.string, "String"@) + opt_label(
            ts.number,
            "Number"@,
        ));
    }
    if ts.integer {
        r.push("Integer".to_owned());
    }
    proof {
        assert(r.deep_view() =~~= opt_label(ts.string, "String"@) + opt_label(
            ts.number,
            "Number"@,
        ) + opt_label(ts.integer, "Integer"@));
    }
    if ts.boolean {
        r.push("Boolean".to_owned());
    }
    proof {
        assert(r.deep_view() =~~= opt_label(ts.string, "String"@) + opt_label(
            ts.number,
            "Number"@,
        ) + opt_label(ts.integer, "Integer"@) + opt_label(ts.boolean, "Boolean"@));
    }
    if ts.array {
        r.push("Array".to_owned());
    }
    proof {
        assert(r.deep_view() =~~= opt_label(ts.string, "String"@) + opt_label(
            ts.number,
            "Number"@,
        ) + opt_label(ts.integer, "Integer"@) + opt_label(ts.boolean, "Boolean"@) + opt_label(
            ts.array,
            "Array"@,
        ));
    }
    if ts.object {
        r.push("Object".to_owned());
    }
    proof {
        assert(r.deep_view() =~~= type_labels(*ts));
    }
    r
}

/// One annotated parameter, ready to be written as a comment line.
pub struct Comment {
    pub possible_types: TypeSet,
    pub name: String,
    pub required: Option<bool>,
    pub default: Option<String>,
}

/// The text of one comment line: the name, a `?` when the parameter is
/// declared optional, then the possible types separated by commas.
pub open spec fn comment_line(c: Comment) -> Seq<char> {
    c.name@ + (if c.required == Some(false) {
        "?"@
    } else {
        Seq::<char>::empty()
    }) + ": "@ + joined(type_labels(c.possible_types), ","@)
}

impl Comment {
    /// Renders the comment as `name: Type1,Type2`, with a `?` after the name
    /// when the parameter is declared optional.
    pub fn get_formatted(&self) -> (r: String)
        ensures
            r@ == comment_line(*self),
    {
        let mut r = self.name.clone();
        let optional = match self.required {
            Some(req) => !req,
            None => false,
        };
        if optional {
            r.append("?");
        }
        r.append(": ");
        let labels = labels_of(&self.possible_types);
        let types = join_strings(&labels, ",");
        r.append(types.as_str());
        r
    }
}

/// The heading and lines of one comment group.
pub open spec fn comment_group(cs: Seq<Comment>, label: Seq<char>) -> Seq<char> {
    "# "@ + label + "\n"@ + joined(
        cs.map_values(|c: Comment| "#  - "@ + comment_line(c) + "\n"@),
        Seq::<char>::empty(),
    ) + "#"@
}

/// Renders one group of comments under its heading:
/// a `# <label>` line, one `#  - name: types` line per comment, and a
/// closing `#` line.
pub fn get_formatted_comment(value: &Vec<Comment>, location: &str) -> (r: String)
    ensures
        r@ == comment_group(value@, location@),
{
    let ghost line_of = |c: Comment| "#  - "@ + comment_line(c) + "\n"@;
    let mut r = "# ".to_owned();
    r.append(location);
    r.append("\n");
    let mut i: usize = 0;
    proof {
        assert(value@.take(0).map_values(line_of) =~~= Seq::<Seq<char>>::empty());
        assert(r@ =~= "# "@ + location@ + "\n"@ + joined(
            value@.take(0).map_values(line_of),
            Seq::<char>::empty(),
        ));
    }
    while i < value.len()
        invariant
            i <= value.len(),
            line_of == (|c: Comment| "#  - "@ + comment_line(c) + "\n"@),
            r@ == "# "@ + location@ + "\n"@ + joined(
                value@.take(i as int).map_values(line_of),
                Seq::<char>::empty(),
            ),
        decreases value.len() - i,
    {
        let line = value[i].get_formatted();
        r.append("#  - ");
        r.append(line.as_str());
        r.append("\n");
        proof {
            let parts = value@.take(i as int).map_values(line_of);
            lemma_joined_push(parts, Seq::<char>::empty(), line_of(value@[i as int]));
            assert(value@.take(i + 1).map_values(line_of) =~~= parts.push(
                line_of(value@[i as int]),
            ));
            if parts.len() == 0 {
                assert(joined(parts.push(line_of(value@[i as int])), Seq::<char>::empty())
                    =~= line_of(value@[i as int]));
            } else {
                assert(joined(parts, Seq::<char>::empty()) + Seq::<char>::empty() + line_of(
                    value@[i as int],
                ) =~= joined(parts, Seq::<char>::empty()) + line_of(value@[i as int]));
            }
            assert(r@ =~= "# "@ + location@ + "\n"@ + joined(
                value@.take(i + 1).map_values(line_of),
                Seq::<char>::empty(),
            ));
        }
        i = i + 1;
    }
    r.append("#");
    proof {
        assert(value@.take(value@.len() as int) =~~= value@);
        assert(r@ =~= comment_group(value@, location@));
    }
    r
}

/// The comments of one operation, one list per parameter kind.
pub struct CommentsHolder {
    pub query: Vec<Comment>,
    pub parameters: Vec<Comment>,
    pub body: Vec<Comment>,
    pub security: Vec<Comment>,
}

/// Zero or one rendered groups, depending on whether the group has comments.
pub open spec fn opt_group(cs: Seq<Comment>, label: Seq<char>) -> Seq<Seq<char>> {
    if cs.len() > 0 {
        seq![comment_group(cs, label)]
    } else {
        Seq::empty()
    }
}

/// The rendered groups of a holder, in their fixed order; empty groups are
/// left out entirely.
pub open spec fn holder_groups(h: CommentsHolder) -> Seq<Seq<char>> {
    opt_group(h.query@, "Query"@) + opt_group(h.parameters@, "Parameters"@) + opt_group(
        h.body@,
        "Body"@,
    ) + opt_group(h.security@, "Security"@)
}

/// The full comment section of one operation.
pub open spec fn holder_text(h: CommentsHolder) -> Seq<char> {
    joined(holder_groups(h), "\n"@)
}

impl CommentsHolder {
    /// Renders every non-empty group under its heading, groups separated by
    /// single line breaks; a holder with no comments renders as nothing.
    pub fn get_formatted(&self) -> (r: String)
        ensures
            r@ == holder_text(*self),
    {
        let mut groups: Vec<String> = Vec::new();
        if self.query.len() > 0 {
            groups.push(get_formatted_comment(&self.query, "Query"));
        }
        proof {
            assert(groups.deep_view() =~~= opt_group(self.query@, "Query"@));
        }
        if self.parameters.len() > 0 {
            groups.push(get_formatted_comment(&self.parameters, "Parameters"));
        }
        proof {
            assert(groups.deep_view() =~~= opt_group(self.query@, "Query"@) + opt_group(
                self.parameters@,
                "Parameters"@,
            ));
        }
        if self.body.len() > 0 {
            groups.push(get_formatted_comment(&self.body, "Body"));
        }
        proof {
            assert(groups.deep_view() =~~= opt_group(self.query@, "Query"@) + opt_group(
                self.parameters@,
                "Parameters"@,
            ) + opt_group(self.body@, "Body"@));
        }
        if self.security.len() > 0 {
            groups.push(get_formatted_comment(&self.security, "Security"));
        }
        proof {
            assert(groups.deep_view() =~~= holder_groups(*self));
        }
        join_strings(&groups, "\n")
    }
}

/// A line of the comment section: non-empty, starting with `#`.
pub open spec fn is_comment_line(l: Seq<char>) -> bool {
    l.len() > 0 && l[0] == '#'
}

/// No comment name in the holder holds a line break.
pub open spec fn no_newline_names(h: CommentsHolder) -> bool {
    &&& forall|i: int| 0 <= i < h.query@.len() ==> !has_char((#[trigger] h.query@[i]).name@, '\n')
    &&& forall|i: int|
        0 <= i < h.parameters@.len() ==> !has_char((#[trigger] h.parameters@[i]).name@, '\n')
    &&& forall|i: int| 0 <= i < h.body@.len() ==> !has_char((#[trigger] h.body@[i]).name@, '\n')
    &&& forall|i: int|
        0 <= i < h.security@.len() ==> !has_char((#[trigger] h.security@[i]).name@, '\n')
}

/// The lines of one comment group: the heading, one line per comment, the
/// closing `#`.
pub open spec fn group_lines(cs: Seq<Comment>, label: Seq<char>) -> Seq<Seq<char>> {
    seq!["# "@ + label] + cs.map_values(|c: Comment| "#  - "@ + comment_line(c)) + seq!["#"@]
}

proof fn lemma_group_body_joined(cs: Seq<Comment>, label: Seq<char>)
    ensures
        "# "@ + label + "\n"@ + joined(
            cs.map_values(|c: Comment| "#  - "@ + comment_line(c) + "\n"@),
            Seq::<char>::empty(),
        ) == joined(
            seq!["# "@ + label] + cs.map_values(|c: Comment| "#  - "@ + comment_line(c)),
            "\n"@,
        ) + "\n"@,
    decreases cs.len(),
{
    let lc = |c: Comment| "#  - "@ + comment_line(c) + "\n"@;
    let m = |c: Comment| "#  - "@ + comment_line(c);
    let hl = "# "@ + label;
    if cs.len() == 0 {
        assert(cs.map_values(lc) =~~= Seq::<Seq<char>>::empty());
        assert(cs.map_values(m) =~~= Seq::<Seq<char>>::empty());
        assert(seq![hl] + cs.map_values(m) =~~= seq![hl]);
        assert(joined(seq![hl], "\n"@) == hl);
        assert("# "@ + label + "\n"@ + joined(cs.map_values(lc), Seq::<char>::empty()) =~= hl
            + "\n"@);
    } else {
        let init = cs.drop_last();
        let c = cs.last();
        lemma_group_body_joined(init, label);
        assert(cs.map_values(lc) =~~= init.map_values(lc).push(lc(c)));
        assert(cs.map_values(m) =~~= init.map_values(m).push(m(c)));
        lemma_joined_push(init.map_values(lc), Seq::<char>::empty(), lc(c));
        assert(seq![hl] + cs.map_values(m) =~~= (seq![hl] + init.map_values(m)).push(m(c)));
        lemma_joined_push(seq![hl] + init.map_values(m), "\n"@, m(c));
        let body_init = joined(seq![hl] + init.map_values(m), "\n"@);
        if init.len() == 0 {
            assert(joined(cs.map_values(lc), Seq::<char>::empty()) == lc(c));
            assert("# "@ + label + "\n"@ + lc(c) =~= (body_init + "\n"@ + m(c)) + "\n"@) by {
                assert(body_init == hl);
            }
        } else {
            assert(joined(cs.map_values(lc), Seq::<char>::empty()) == joined(
                init.map_values(lc),
                Seq::<char>::empty(),
            ) + Seq::<char>::empty() + lc(c));
            assert("# "@ + label + "\n"@ + joined(cs.map_values(lc), Seq::<char>::empty()) =~= (
            "# "@ + label + "\n"@ + joined(init.map_values(lc), Seq::<char>::empty())) + lc(c));
            assert(("# "@ + label + "\n"@ + joined(init.map_values(lc), Seq::<char>::empty()))
                + lc(c) =~= (body_init + "\n"@ + m(c)) + "\n"@);
        }
        assert(joined(seq![hl] + cs.map_values(m), "\n"@) == body_init + "\n"@ + m(c));
    }
}

/// A comment group is its lines joined by line breaks.
pub proof fn lemma_comment_group_lines(cs: Seq<Comment>, label: Seq<char>)
    ensures
        comment_group(cs, label) == joined(group_lines(cs, label), "\n"@),
{
    lemma_group_body_joined(cs, label);
    let m = |c: Comment| "#  - "@ + comment_line(c);
    let hl = "# "@ + label;
    let body = joined(seq![hl] + cs.map_values(m), "\n"@);
    lemma_joined_push(seq![hl] + cs.map_values(m), "\n"@, "#"@);
    assert(group_lines(cs, label) =~~= (seq![hl] + cs.map_values(m)).push("#"@));
    assert(comment_group(cs, label) =~= (body + "\n"@) + "#"@);
    assert(joined(group_lines(cs, label), "\n"@) == body + "\n"@ + "#"@);
}

/// With no line break in the label or the comment names, every line of a
/// group starts with `#` and holds no line break itself.
pub proof fn lemma_group_lines_facts(cs: Seq<Comment>, label: Seq<char>)
    requires
        forall|i: int| 0 <= i < cs.len() ==> !has_char((#[trigger] cs[i]).name@, '\n'),
        !has_char(label, '\n'),
    ensures
        forall|i: int|
            0 <= i < group_lines(cs, label).len() ==> is_comment_line(
                #[trigger] group_lines(cs, label)[i],
            ) && !has_char(group_lines(cs, label)[i], '\n'),
{
    reveal_strlit("# ");
    reveal_strlit("#  - ");
    reveal_strlit("#");
    reveal_strlit("?");
    reveal_strlit(": ");
    reveal_strlit(",");
    reveal_strlit("String");
    reveal_strlit("Number");
    reveal_strlit("Integer");
    reveal_strlit("Boolean");
    reveal_strlit("Array");
    reveal_strlit("Object");
    let gl = group_lines(cs, label);
    let m = |c: Comment| "#  - "@ + comment_line(c);
    assert forall|i: int| 0 <= i < gl.len() implies is_comment_line(#[trigger] gl[i]) && !has_char(
        gl[i],
        '\n',
    ) by {
        if i == 0 {
            assert(gl[0] == "# "@ + label);
            assert(("# "@ + label)[0] == '#');
            lemma_concat_no_char("# "@, label, '\n');
        } else if i < gl.len() - 1 {
            let c = cs[i - 1];
            assert(gl[i] == m(c));
            assert(("#  - "@ + comment_line(c))[0] == '#');
            assert(!has_char(comment_line(c), '\n')) by {
                let tl = type_labels(c.possible_types);
                assert forall|k: int| 0 <= k < tl.len() implies !has_char(
                    #[trigger] tl[k],
                    '\n',
                ) by {
                    assert(tl[k] == "String"@ || tl[k] == "Number"@ || tl[k] == "Integer"@
                        || tl[k] == "Boolean"@ || tl[k] == "Array"@ || tl[k] == "Object"@);
                }
                assert(!has_char(","@, '\n'));
                lemma_joined_no_char(tl, ","@, '\n');
                let opt = (if c.required == Some(false) {
                    "?"@
                } else {
                    Seq::<char>::empty()
                });
                assert(!has_char(opt, '\n'));
                lemma_concat_no_char(c.name@, opt, '\n');
                lemma_concat_no_char(c.name@ + opt, ": "@, '\n');
                lemma_concat_no_char(c.name@ + opt + ": "@, joined(tl, ","@), '\n');
            }
            lemma_concat_no_char("#  - "@, comment_line(c), '\n');
        } else {
            assert(gl[i] == "#"@);
        }
    }
}

/// With no line break in any comment name, every line of a non-empty
/// comment section starts with `#`.
pub proof fn lemma_holder_lines_comment(h: CommentsHolder)
    requires
        no_newline_names(h),
        holder_text(h).len() > 0,
    ensures
        forall|i: int|
            0 <= i < split_char(holder_text(h), '\n').len() ==> is_comment_line(
                #[trigger] split_char(holder_text(h), '\n')[i],
            ),
{
    reveal_strlit("\n");
    reveal_strlit("Query");
    reveal_strlit("Parameters");
    reveal_strlit("Body");
    reveal_strlit("Security");
    assert("\n"@ =~= seq!['\n']);
    let groups = holder_groups(h);
    assert(groups.len() > 0);
    lemma_split_joined(groups, '\n');
    let p = |l: Seq<char>| is_comment_line(l);
    assert forall|i: int, j: int|
        0 <= i < groups.len() && 0 <= j < split_char(groups[i], '\n').len() implies p(
        #[trigger] split_char(groups[i], '\n')[j],
    ) by {
        let g = groups[i];
        assert(g == comment_group(h.query@, "Query"@) || g == comment_group(
            h.parameters@,
            "Parameters"@,
        ) || g == comment_group(h.body@, "Body"@) || g == comment_group(h.security@, "Security"@));
        if g == comment_group(h.query@, "Query"@) {
            group_split_is_lines(h.query@, "Query"@);
        } else if g == comment_group(h.parameters@, "Parameters"@) {
            group_split_is_lines(h.parameters@, "Parameters"@);
        } else if g == comment_group(h.body@, "Body"@) {
            group_split_is_lines(h.body@, "Body"@);
        } else {
            group_split_is_lines(h.security@, "Security"@);
        }
    }
    lemma_splits_concat_prop(groups, '\n', p);
}

/// Splitting a rendered group gives back its lines, and they are comment
/// lines, as long as no comment name holds a line break.
proof fn group_split_is_lines(cs: Seq<Comment>, label: Seq<char>)
    requires
        forall|i: int| 0 <= i < cs.len() ==> !has_char((#[trigger] cs[i]).name@, '\n'),
        !has_char(label, '\n'),
    ensures
        split_char(comment_group(cs, label), '\n') == group_lines(cs, label),
        forall|j: int|
            0 <= j < group_lines(cs, label).len() ==> is_comment_line(
                #[trigger] group_lines(cs, label)[j],
            ),
{
    reveal_strlit("\n");
    assert("\n"@ =~= seq!['\n']);
    lemma_comment_group_lines(cs, label);
    lemma_group_lines_facts(cs, label);
    lemma_join_split_roundtrip(group_lines(cs, label), '\n');
    assert(joined(group_lines(cs, label), "\n"@) == joined(group_lines(cs, label), seq!['\n']));
}

} // verus!
