//! Grouping of rendered request blocks into output documents: one document
//! per resolved file path, with the file-versus-folder collision rule
//! decided only once every endpoint is known.

use crate::diag::{warning_views, PathResolutionError, Warning, WarningView};
use crate::http_data::{
    builder_ok, formatted, kept_segments, op_warning_views, resolves, HttpData, Names,
};
use crate::open_api::{Components, HttpMethod, OpenApi, Operation};
use crate::text::{join_strings, joined};
use vstd::prelude::*;

verus! {

/// One endpoint's resolved names and its rendered request blocks, in
/// operation order.
pub struct EndpointDocs {
    pub names: Names,
    pub blocks: Vec<String>,
}

/// One output file: its path and its complete text.
#[derive(Debug)]
pub struct OutputDocument {
    pub path: String,
    pub content: String,
}

/// Everything one conversion run produces: the folders to ensure, the
/// documents to write, and the warnings met on the way.
#[derive(Debug)]
pub struct ConversionOutput {
    pub folders: Vec<String>,
    pub documents: Vec<OutputDocument>,
    pub warnings: Vec<Warning>,
}

/// An endpoint by views: file path, file name, folder chain, blocks.
pub type EndpointView = (Seq<char>, Seq<char>, Seq<Seq<char>>, Seq<Seq<char>>);

/// The view of one endpoint's documents.
pub open spec fn endpoint_view(d: EndpointDocs) -> EndpointView {
    (d.names.file_path@, d.names.file_name@, d.names.folders.deep_view(), d.blocks.deep_view())
}

/// The views of a list of endpoints.
pub open spec fn entry_views(es: Seq<EndpointDocs>) -> Seq<EndpointView> {
    es.map_values(|d: EndpointDocs| endpoint_view(d))
}

/// A document group by views: file path, file name, blocks.
pub type DocGroup = (Seq<char>, Seq<char>, Seq<Seq<char>>);

/// The group view of one endpoint's documents.
pub open spec fn doc_group_view(d: EndpointDocs) -> DocGroup {
    (d.names.file_path@, d.names.file_name@, d.blocks.deep_view())
}

/// The group views of a list of endpoints.
pub open spec fn group_views(gs: Seq<EndpointDocs>) -> Seq<DocGroup> {
    gs.map_values(|d: EndpointDocs| doc_group_view(d))
}

/// Index of the first group with the given file path, or `-1`.
pub open spec fn group_index(groups: Seq<DocGroup>, key: Seq<char>) -> int
    decreases groups.len(),
{
    if groups.len() == 0 {
        -1
    } else if groups[0].0 == key {
        0
    } else {
        let r = group_index(groups.skip(1), key);
        if r < 0 {
            -1
        } else {
            r + 1
        }
    }
}

proof fn lemma_group_index_at(groups: Seq<DocGroup>, key: Seq<char>, i: int)
    requires
        0 <= i <= groups.len(),
        forall|j: int| 0 <= j < i ==> (#[trigger] groups[j]).0 != key,
        i < groups.len() ==> groups[i].0 == key,
    ensures
        group_index(groups, key) == if i == groups.len() {
            -1
        } else {
            i
        },
    decreases i,
{
    if i > 0 {
        assert forall|j: int| 0 <= j < i - 1 implies (#[trigger] groups.skip(1)[j]).0 != key by {
            assert(groups.skip(1)[j] == groups[j + 1]);
        }
        assert(i - 1 < groups.skip(1).len() ==> groups.skip(1)[i - 1].0 == key);
        lemma_group_index_at(groups.skip(1), key, i - 1);
    }
}

/// Adds one endpoint to the groups: a new group for a new file path,
/// otherwise its blocks go to the end of its file path's group.
pub open spec fn merge_endpoint(groups: Seq<DocGroup>, e: EndpointView) -> Seq<DocGroup> {
    let k = group_index(groups, e.0);
    if k < 0 {
        groups.push((e.0, e.1, e.3))
    } else {
        groups.update(k, (groups[k].0, groups[k].1, groups[k].2 + e.3))
    }
}

/// The document groups of the endpoints, in first-occurrence order of their
/// file paths.
pub open spec fn grouped(entries: Seq<EndpointView>) -> Seq<DocGroup>
    decreases entries.len(),
{
    if entries.len() == 0 {
        Seq::empty()
    } else {
        merge_endpoint(grouped(entries.drop_last()), entries.last())
    }
}

/// Some endpoint uses `f` as a folder.
pub open spec fn some_folder(entries: Seq<EndpointView>, f: Seq<char>) -> bool {
    exists|i: int, j: int|
        0 <= i < entries.len() && 0 <= j < entries[i].2.len() && #[trigger] entries[i].2[j] == f
}

/// Whether a group's document goes inside a directory named by its file
/// path: it does when the group holds more than one block, or when some
/// endpoint uses the file path as a folder.
pub open spec fn in_directory(entries: Seq<EndpointView>, g: DocGroup) -> bool {
    g.2.len() > 1 || some_folder(entries, g.0)
}

/// The on-disk path of a group's document.
pub open spec fn document_path(entries: Seq<EndpointView>, g: DocGroup) -> Seq<char> {
    if in_directory(entries, g) {
        g.0 + "/"@ + g.1 + ".http"@
    } else {
        g.0 + ".http"@
    }
}

/// The text of a group's document: its blocks separated by blank lines.
pub open spec fn document_content(g: DocGroup) -> Seq<char> {
    joined(g.2, "\n\n"@)
}

/// The folder chains of all endpoints, in order.
pub open spec fn all_folders(entries: Seq<EndpointView>) -> Seq<Seq<char>>
    decreases entries.len(),
{
    if entries.len() == 0 {
        Seq::empty()
    } else {
        all_folders(entries.drop_last()) + entries.last().2
    }
}

/// The folders the placement pass adds: one per group that needs a new
/// directory because it holds several blocks.
pub open spec fn placement_folders(groups: Seq<DocGroup>) -> Seq<Seq<char>>
    decreases groups.len(),
{
    if groups.len() == 0 {
        Seq::empty()
    } else {
        placement_folders(groups.drop_last()) + (if groups.last().2.len() > 1 {
            seq![groups.last().0]
        } else {
            Seq::empty()
        })
    }
}

/// A sequence holds `f` exactly when some endpoint's folder chain does.
proof fn lemma_all_folders_elements(entries: Seq<EndpointView>, f: Seq<char>)
    ensures
        (exists|x: int| 0 <= x < all_folders(entries).len() && #[trigger] all_folders(entries)[x]
            == f) <==> some_folder(entries, f),
    decreases entries.len(),
{
    if entries.len() > 0 {
        let head = entries.drop_last();
        let last = entries.last();
        lemma_all_folders_elements(head, f);
        if exists|x: int|
            0 <= x < all_folders(entries).len() && #[trigger] all_folders(entries)[x] == f {
            let x = choose|x: int|
                0 <= x < all_folders(entries).len() && #[trigger] all_folders(entries)[x] == f;
            if x < all_folders(head).len() {
                assert(all_folders(head)[x] == f);
                let (i, j) = choose|i: int, j: int|
                    0 <= i < head.len() && 0 <= j < head[i].2.len() && #[trigger] head[i].2[j]
                        == f;
                assert(entries[i].2[j] == f);
            } else {
                let j = x - all_folders(head).len();
                assert(entries[entries.len() - 1].2[j] == f);
            }
        }
        if some_folder(entries, f) {
            let (i, j) = choose|i: int, j: int|
                0 <= i < entries.len() && 0 <= j < entries[i].2.len() && #[trigger] entries[i].2[j]
                    == f;
            if i < entries.len() - 1 {
                assert(head[i].2[j] == f);
                let x = choose|x: int|
                    0 <= x < all_folders(head).len() && #[trigger] all_folders(head)[x] == f;
                assert(all_folders(entries)[x] == f);
            } else {
                assert(all_folders(entries)[all_folders(head).len() + j] == f);
            }
        }
    }
}

/// `s` occurs in `v`, by characters.
fn vec_has_string(v: &Vec<String>, s: &String) -> (r: bool)
    ensures
        r == exists|i: int| 0 <= i < v@.len() && (#[trigger] v@[i])@ == s@,
{
    let mut i: usize = 0;
    while i < v.len()
        invariant
            i <= v.len(),
            forall|j: int| 0 <= j < i ==> (#[trigger] v@[j])@ != s@,
        decreases v.len() - i,
    {
        if v[i].eq(s) {
            proof {
                assert((v@[i as int])@ == s@);
            }
            return true;
        }
        i = i + 1;
    }
    false
}

/// Groups the endpoints' blocks by file path, in first-occurrence order.
fn group_blocks(entries: Vec<EndpointDocs>) -> (groups: Vec<EndpointDocs>)
    ensures
        group_views(groups@) == grouped(entry_views(entries@)),
{
    let ghost orig = entry_views(entries@);
    let mut rest = entries;
    let mut groups: Vec<EndpointDocs> = Vec::new();
    let ghost mut done: int = 0;
    proof {
        assert(entry_views(rest@) =~~= orig.skip(0));
        assert(group_views(groups@) =~~= grouped(orig.take(0)));
    }
    while rest.len() > 0
        invariant
            0 <= done <= orig.len(),
            entry_views(rest@) == orig.skip(done),
            group_views(groups@) == grouped(orig.take(done)),
        decreases rest.len(),
    {
        let ghost pre = rest@;
        let mut e = rest.remove(0);
        proof {
            assert(entry_views(pre).len() == pre.len());
            assert(orig.skip(done).len() == orig.len() - done);
            assert(done < orig.len());
            assert(endpoint_view(e) == entry_views(pre)[0]);
            assert(entry_views(pre)[0] == orig.skip(done)[0]);
            assert(orig.skip(done)[0] == orig[done + 0]);
            assert(endpoint_view(e) == orig[done]);
            assert forall|x: int| 0 <= x < rest@.len() implies #[trigger] entry_views(rest@)[x]
                == orig.skip(done + 1)[x] by {
                assert(rest@[x] == pre[x + 1]);
                assert(entry_views(rest@)[x] == endpoint_view(pre[x + 1]));
                assert(entry_views(pre)[x + 1] == endpoint_view(pre[x + 1]));
                assert(orig.skip(done)[x + 1] == orig[done + 1 + x]);
                assert(orig.skip(done + 1)[x] == orig[done + 1 + x]);
            }
            assert(entry_views(rest@) =~~= orig.skip(done + 1));
        }
        let mut idx: usize = groups.len();
        let mut t: usize = 0;
        while t < groups.len()
            invariant
                t <= groups.len(),
                idx == groups.len() || (idx < t && group_views(groups@)[idx as int].0
                    == e.names.file_path@),
                idx == groups.len() ==> forall|j: int|
                    0 <= j < t ==> (#[trigger] group_views(groups@)[j]).0 != e.names.file_path@,
                idx < groups.len() ==> forall|j: int|
                    0 <= j < idx ==> (#[trigger] group_views(groups@)[j]).0 != e.names.file_path@,
            decreases groups.len() - t,
        {
            if idx == groups.len() && groups[t].names.file_path.eq(&e.names.file_path) {
                idx = t;
                proof {
                    assert(group_views(groups@)[t as int].0 == e.names.file_path@);
                }
            }
            t = t + 1;
        }
        let ghost before = group_views(groups@);
        let ghost ev = endpoint_view(e);
        if idx < groups.len() {
            proof {
                lemma_group_index_at(before, e.names.file_path@, idx as int);
            }
            groups[idx].blocks.append(&mut e.blocks);
            proof {
                assert(group_views(groups@) =~~= before.update(
                    idx as int,
                    (before[idx as int].0, before[idx as int].1, before[idx as int].2 + ev.3),
                ));
                assert(group_views(groups@) =~~= merge_endpoint(before, ev));
            }
        } else {
            proof {
                lemma_group_index_at(before, e.names.file_path@, before.len() as int);
            }
            groups.push(e);
            proof {
                assert(group_views(groups@) =~~= before.push((ev.0, ev.1, ev.3)));
                assert(group_views(groups@) =~~= merge_endpoint(before, ev));
            }
        }
        proof {
            done = done + 1;
            assert(orig.take(done).drop_last() =~~= orig.take(done - 1));
            assert(orig.take(done).last() == orig[done - 1]);
            assert(grouped(orig.take(done)) == merge_endpoint(grouped(orig.take(done - 1)), ev));
        }
    }
    proof {
        assert(orig.skip(done).len() == 0);
        assert(done == orig.len());
        assert(orig.take(done) =~~= orig);
    }
    groups
}

/// Groups the blocks, decides each group's placement against the global
/// folder set, and renders each document: the folders to ensure (every
/// endpoint's chain, then one per directory the placement adds) and the
/// final documents, one per distinct file path.
pub fn aggregate(entries: Vec<EndpointDocs>) -> (r: (Vec<String>, Vec<OutputDocument>))
    ensures
        r.0.deep_view() == all_folders(entry_views(entries@)) + placement_folders(
            grouped(entry_views(entries@)),
        ),
        r.1@.len() == grouped(entry_views(entries@)).len(),
        forall|i: int|
            0 <= i < r.1@.len() ==> (#[trigger] r.1@[i]).path@ == document_path(
                entry_views(entries@),
                grouped(entry_views(entries@))[i],
            ) && r.1@[i].content@ == document_content(grouped(entry_views(entries@))[i]),
{
    let ghost ev = entry_views(entries@);
    let mut folders: Vec<String> = Vec::new();
    let mut ei: usize = 0;
    proof {
        assert(folders.deep_view() =~~= all_folders(ev.take(0)));
    }
    while ei < entries.len()
        invariant
            ei <= entries.len(),
            ev == entry_views(entries@),
            folders.deep_view() == all_folders(ev.take(ei as int)),
        decreases entries.len() - ei,
    {
        let fs = &entries[ei].names.folders;
        let mut fi: usize = 0;
        while fi < fs.len()
            invariant
                fi <= fs.len(),
                ei < entries.len(),
                ev == entry_views(entries@),
                fs == &entries@[ei as int].names.folders,
                folders.deep_view() == all_folders(ev.take(ei as int)) + fs.deep_view().take(
                    fi as int,
                ),
            decreases fs.len() - fi,
        {
            let ghost before = folders.deep_view();
            folders.push(fs[fi].clone());
            proof {
                assert(folders.deep_view() =~~= before.push(fs@[fi as int]@));
                assert(fs.deep_view().take(fi + 1) =~~= fs.deep_view().take(fi as int).push(
                    fs@[fi as int]@,
                ));
                assert(folders.deep_view() =~~= all_folders(ev.take(ei as int)) + fs.deep_view().take(
                    fi + 1,
                ));
            }
            fi = fi + 1;
        }
        proof {
            assert(fs.deep_view().take(fs.deep_view().len() as int) =~~= fs.deep_view());
            assert(ev.take(ei + 1).drop_last() =~~= ev.take(ei as int));
            assert(ev.take(ei + 1).last() == ev[ei as int]);
            assert(ev[ei as int].2 == fs.deep_view());
            assert(all_folders(ev.take(ei + 1)) == all_folders(ev.take(ei as int))
                + fs.deep_view());
        }
        ei = ei + 1;
    }
    proof {
        assert(ev.take(ev.len() as int) =~~= ev);
    }
    let groups = group_blocks(entries);
    let ghost gs = grouped(ev);
    let mut documents: Vec<OutputDocument> = Vec::new();
    let mut extra: Vec<String> = Vec::new();
    let mut gi: usize = 0;
    proof {
        assert(extra.deep_view() =~~= placement_folders(gs.take(0)));
    }
    while gi < groups.len()
        invariant
            gi <= groups.len(),
            group_views(groups@) == gs,
            gs == grouped(ev),
            folders.deep_view() == all_folders(ev),
            extra.deep_view() == placement_folders(gs.take(gi as int)),
            documents@.len() == gi,
            forall|j: int|
                0 <= j < gi ==> (#[trigger] documents@[j]).path@ == document_path(ev, gs[j])
                    && documents@[j].content@ == document_content(gs[j]),
        decreases groups.len() - gi,
    {
        let g = &groups[gi];
        proof {
            assert(doc_group_view(*g) == gs[gi as int]);
        }
        let multi = g.blocks.len() > 1;
        let collide = vec_has_string(&folders, &g.names.file_path);
        proof {
            lemma_all_folders_elements(ev, g.names.file_path@);
            let key = g.names.file_path@;
            if collide {
                let i = choose|i: int| 0 <= i < folders@.len() && (#[trigger] folders@[i])@ == key;
                assert(folders.deep_view()[i] == key);
                assert(all_folders(ev)[i] == key);
            }
            if some_folder(ev, key) {
                let x = choose|x: int|
                    0 <= x < all_folders(ev).len() && #[trigger] all_folders(ev)[x] == key;
                assert(folders.deep_view()[x] == key);
                assert((folders@[x])@ == key);
            }
            assert(collide == some_folder(ev, key));
        }
        let mut path = g.names.file_path.clone();
        if multi || collide {
            path.append("/");
            path.append(g.names.file_name.as_str());
            path.append(".http");
        } else {
            path.append(".http");
        }
        let ghost extra_before = extra.deep_view();
        if multi {
            extra.push(g.names.file_path.clone());
            proof {
                assert(extra.deep_view() =~~= extra_before.push(g.names.file_path@));
            }
        }
        proof {
            assert(gs.take(gi + 1).drop_last() =~~= gs.take(gi as int));
            assert(gs.take(gi + 1).last() == gs[gi as int]);
            assert(extra.deep_view() =~~= placement_folders(gs.take(gi + 1)));
        }
        let content = join_strings(&g.blocks, "\n\n");
        documents.push(OutputDocument { path, content });
        gi = gi + 1;
    }
    proof {
        assert(gs.take(gs.len() as int) =~~= gs);
    }
    let mut folders = folders;
    folders.append(&mut extra);
    (folders, documents)
}

proof fn lemma_group_index_props(groups: Seq<DocGroup>, key: Seq<char>)
    ensures
        -1 <= group_index(groups, key) < groups.len(),
        0 <= group_index(groups, key) ==> groups[group_index(groups, key)].0 == key,
        forall|j: int| 0 <= j < group_index(groups, key) ==> (#[trigger] groups[j]).0 != key,
        group_index(groups, key) < 0 ==> forall|j: int|
            0 <= j < groups.len() ==> (#[trigger] groups[j]).0 != key,
    decreases groups.len(),
{
    if groups.len() > 0 && groups[0].0 != key {
        lemma_group_index_props(groups.skip(1), key);
        assert forall|j: int| 0 < j < groups.len() implies groups.skip(1)[j - 1] == groups[j] by {}
    }
}

/// The blocks of all entries with the given file path, in entry order.
pub open spec fn blocks_for_path(entries: Seq<EndpointView>, key: Seq<char>) -> Seq<Seq<char>>
    decreases entries.len(),
{
    if entries.len() == 0 {
        Seq::empty()
    } else {
        blocks_for_path(entries.drop_last(), key) + (if entries.last().0 == key {
            entries.last().3
        } else {
            Seq::empty()
        })
    }
}

proof fn lemma_blocks_for_path_absent(entries: Seq<EndpointView>, key: Seq<char>)
    requires
        forall|i: int| 0 <= i < entries.len() ==> (#[trigger] entries[i]).0 != key,
    ensures
        blocks_for_path(entries, key) == Seq::<Seq<char>>::empty(),
    decreases entries.len(),
{
    if entries.len() > 0 {
        assert forall|i: int|
            0 <= i < entries.drop_last().len() implies (#[trigger] entries.drop_last()[i]).0
            != key by {
            assert(entries.drop_last()[i] == entries[i]);
        }
        lemma_blocks_for_path_absent(entries.drop_last(), key);
        assert(entries[entries.len() - 1] == entries.last());
        assert(blocks_for_path(entries, key) =~~= Seq::<Seq<char>>::empty());
    }
}

/// LAW. Grouping makes one document per distinct file path: the group keys
/// are distinct, every endpoint's file path has its group, and each group's
/// blocks are exactly the blocks of every endpoint with that file path, in
/// endpoint order.
pub proof fn lemma_grouped_by_path(entries: Seq<EndpointView>)
    ensures
        forall|k1: int, k2: int|
            0 <= k1 < k2 < grouped(entries).len() ==> (#[trigger] grouped(entries)[k1]).0 != (
            #[trigger] grouped(entries)[k2]).0,
        forall|i: int|
            0 <= i < entries.len() ==> group_index(
                grouped(entries),
                (#[trigger] entries[i]).0,
            ) >= 0,
        forall|k: int|
            0 <= k < grouped(entries).len() ==> (#[trigger] grouped(entries)[k]).2
                == blocks_for_path(entries, grouped(entries)[k].0),
    decreases entries.len(),
{
    if entries.len() > 0 {
        let head = entries.drop_last();
        let e = entries.last();
        lemma_grouped_by_path(head);
        let ghs = grouped(head);
        let gs = grouped(entries);
        let k = group_index(ghs, e.0);
        lemma_group_index_props(ghs, e.0);
        assert forall|i: int|
            0 <= i < head.len() implies blocks_for_path(entries, head[i].0) == blocks_for_path(
            head,
            head[i].0,
        ) + (if e.0 == head[i].0 {
            e.3
        } else {
            Seq::<Seq<char>>::empty()
        }) by {}
        if k < 0 {
            assert(gs =~~= ghs.push((e.0, e.1, e.3)));
            assert forall|i: int| 0 <= i < head.len() implies (#[trigger] head[i]).0 != e.0 by {
                if head[i].0 == e.0 {
                    assert(group_index(ghs, head[i].0) >= 0);
                }
            }
            lemma_blocks_for_path_absent(head, e.0);
            assert forall|i: int| 0 <= i < entries.len() implies group_index(
                gs,
                (#[trigger] entries[i]).0,
            ) >= 0 by {
                lemma_group_index_props(gs, entries[i].0);
                if i < entries.len() - 1 {
                    assert(entries[i] == head[i]);
                    lemma_group_index_props(ghs, head[i].0);
                    let g = group_index(ghs, head[i].0);
                    assert(gs[g].0 == head[i].0);
                } else {
                    assert(gs[gs.len() - 1].0 == e.0);
                }
            }
            assert forall|kk: int| 0 <= kk < gs.len() implies (#[trigger] gs[kk]).2
                == blocks_for_path(entries, gs[kk].0) by {
                if kk < ghs.len() {
                    assert(gs[kk] == ghs[kk]);
                    assert(ghs[kk].0 != e.0);
                    assert(blocks_for_path(entries, gs[kk].0) =~~= blocks_for_path(
                        head,
                        gs[kk].0,
                    ));
                } else {
                    assert(gs[kk] == (e.0, e.1, e.3));
                    assert(blocks_for_path(entries, e.0) =~~= Seq::<Seq<char>>::empty() + e.3);
                    assert(blocks_for_path(entries, e.0) =~~= e.3);
                }
            }
        } else {
            assert(gs =~~= ghs.update(k, (ghs[k].0, ghs[k].1, ghs[k].2 + e.3)));
            assert forall|kk: int| 0 <= kk < gs.len() implies (#[trigger] gs[kk]).0
                == ghs[kk].0 by {}
            assert forall|i: int| 0 <= i < entries.len() implies group_index(
                gs,
                (#[trigger] entries[i]).0,
            ) >= 0 by {
                lemma_group_index_props(gs, entries[i].0);
                if i < entries.len() - 1 {
                    assert(entries[i] == head[i]);
                    lemma_group_index_props(ghs, head[i].0);
                    let g = group_index(ghs, head[i].0);
                    assert(gs[g].0 == head[i].0);
                } else {
                    assert(gs[k].0 == e.0);
                }
            }
            assert forall|kk: int| 0 <= kk < gs.len() implies (#[trigger] gs[kk]).2
                == blocks_for_path(entries, gs[kk].0) by {
                if kk != k {
                    assert(gs[kk] == ghs[kk]);
                    assert(ghs[kk].0 != ghs[k].0);
                    assert(blocks_for_path(entries, gs[kk].0) =~~= blocks_for_path(
                        head,
                        gs[kk].0,
                    ));
                } else {
                    assert(gs[k].2 == ghs[k].2 + e.3);
                    assert(blocks_for_path(entries, e.0) == blocks_for_path(head, e.0) + e.3);
                }
            }
        }
    }
}

/// LAW. Endpoints that resolve to the same file path land in one document:
/// the grouping holds exactly one group with that file path, and its blocks
/// are the blocks of every such endpoint, in order.
pub proof fn lemma_same_path_one_document(entries: Seq<EndpointView>, i1: int, i2: int)
    requires
        0 <= i1 < entries.len(),
        0 <= i2 < entries.len(),
        entries[i1].0 == entries[i2].0,
    ensures
        ({
            let k = group_index(grouped(entries), entries[i1].0);
            &&& 0 <= k < grouped(entries).len()
            &&& grouped(entries)[k].0 == entries[i1].0
            &&& grouped(entries)[k].2 == blocks_for_path(entries, entries[i1].0)
            &&& forall|k2: int|
                0 <= k2 < grouped(entries).len() && k2 != k ==> (#[trigger] grouped(
                    entries,
                )[k2]).0 != entries[i1].0
        }),
{
    lemma_grouped_by_path(entries);
    lemma_group_index_props(grouped(entries), entries[i1].0);
    let k = group_index(grouped(entries), entries[i1].0);
    assert forall|k2: int|
        0 <= k2 < grouped(entries).len() && k2 != k implies (#[trigger] grouped(entries)[k2]).0
        != entries[i1].0 by {
        if grouped(entries)[k2].0 == entries[i1].0 {
            if k2 < k {
                assert(grouped(entries)[k2].0 != entries[i1].0);
            } else {
                assert(grouped(entries)[k].0 != grouped(entries)[k2].0);
            }
        }
    }
}

/// A rendered block for one operation: some descriptor meeting the builder
/// contract renders to it.
pub open spec fn is_block_for(
    b: Seq<char>,
    names: Names,
    m: HttpMethod,
    op: Operation,
    comps: Option<Components>,
) -> bool {
    exists|d: HttpData, ws: Seq<Warning>|
        #[trigger] builder_ok(d, ws, names, op, m, comps) && b == formatted(d)
}

/// One rendered block per operation, in operation order.
pub open spec fn blocks_for_ops(
    blocks: Seq<Seq<char>>,
    names: Names,
    ops: Seq<(HttpMethod, Operation)>,
    comps: Option<Components>,
) -> bool {
    &&& blocks.len() == ops.len()
    &&& forall|j: int|
        0 <= j < ops.len() ==> is_block_for(#[trigger] blocks[j], names, ops[j].0, ops[j].1, comps)
}

/// The entries are the schema's endpoints in document order, each resolved
/// and carrying one rendered block per operation.
pub open spec fn entries_wf(entries: Seq<EndpointDocs>, schema: OpenApi) -> bool {
    &&& entries.len() == schema.paths@.len()
    &&& forall|i: int|
        0 <= i < entries.len() ==> resolves((#[trigger] schema.paths@[i]).0@, entries[i].names)
    &&& forall|i: int|
        0 <= i < entries.len() ==> blocks_for_ops(
            (#[trigger] entries[i]).blocks.deep_view(),
            entries[i].names,
            schema.paths@[i].1@,
            schema.components,
        )
}

/// The output's folders and documents are exactly those the entries group
/// and place to.
pub open spec fn output_ok(out: ConversionOutput, entries: Seq<EndpointDocs>) -> bool {
    let ev = entry_views(entries);
    let gs = grouped(ev);
    &&& out.documents@.len() == gs.len()
    &&& forall|i: int|
        0 <= i < gs.len() ==> (#[trigger] out.documents@[i]).path@ == document_path(ev, gs[i])
            && out.documents@[i].content@ == document_content(gs[i])
    &&& out.folders.deep_view() == all_folders(ev) + placement_folders(gs)
}

/// The warnings all operations of one endpoint emit, in operation order.
pub open spec fn ops_warning_views(
    ops: Seq<(HttpMethod, Operation)>,
    comps: Option<Components>,
) -> Seq<WarningView>
    decreases ops.len(),
{
    if ops.len() == 0 {
        Seq::empty()
    } else {
        ops_warning_views(ops.drop_last(), comps) + op_warning_views(ops.last().1, comps)
    }
}

/// The warnings the whole document emits, in document order.
pub open spec fn paths_warning_views(
    paths: Seq<(String, Vec<(HttpMethod, Operation)>)>,
    comps: Option<Components>,
) -> Seq<WarningView>
    decreases paths.len(),
{
    if paths.len() == 0 {
        Seq::empty()
    } else {
        paths_warning_views(paths.drop_last(), comps) + ops_warning_views(
            paths.last().1@,
            comps,
        )
    }
}

/// The warnings one conversion of the document emits.
pub open spec fn schema_warning_views(schema: OpenApi) -> Seq<WarningView> {
    paths_warning_views(schema.paths@, schema.components)
}

/// Runs the whole conversion: resolves every endpoint path, builds and
/// renders one block per operation, groups the blocks into documents and
/// decides their placement. The first endpoint path with no usable segment
/// aborts the run and is named in the error; every other gap only leaves a
/// warning in the output.
pub fn convert(schema: &OpenApi) -> (r: Result<ConversionOutput, PathResolutionError>)
    ensures
        match r {
            Ok(out) => {
                &&& forall|i: int|
                    0 <= i < schema.paths@.len() ==> kept_segments(
                        (#[trigger] schema.paths@[i]).0@,
                    ).len() > 0
                &&& warning_views(out.warnings@) == schema_warning_views(*schema)
                &&& exists|entries: Seq<EndpointDocs>|
                    entries_wf(entries, *schema) && #[trigger] output_ok(out, entries)
            },
            Err(e) => exists|i: int|
                {
                    &&& 0 <= i < schema.paths@.len()
                    &&& kept_segments((#[trigger] schema.paths@[i]).0@).len() == 0
                    &&& e.path@ == schema.paths@[i].0@
                    &&& forall|j: int|
                        0 <= j < i ==> kept_segments((#[trigger] schema.paths@[j]).0@).len() > 0
                },
        },
{
    let mut entries: Vec<EndpointDocs> = Vec::new();
    let mut warnings: Vec<Warning> = Vec::new();
    let mut pi: usize = 0;
    proof {
        assert(warning_views(warnings@) =~~= paths_warning_views(
            schema.paths@.take(0),
            schema.components,
        ));
    }
    while pi < schema.paths.len()
        invariant
            pi <= schema.paths@.len(),
            entries@.len() == pi,
            forall|i: int|
                0 <= i < pi ==> kept_segments((#[trigger] schema.paths@[i]).0@).len() > 0,
            forall|i: int|
                0 <= i < pi ==> resolves((#[trigger] schema.paths@[i]).0@, entries@[i].names),
            forall|i: int|
                0 <= i < pi ==> blocks_for_ops(
                    (#[trigger] entries@[i]).blocks.deep_view(),
                    entries@[i].names,
                    schema.paths@[i].1@,
                    schema.components,
                ),
            warning_views(warnings@) == paths_warning_views(
                schema.paths@.take(pi as int),
                schema.components,
            ),
        decreases schema.paths@.len() - pi,
    {
        let names = match Names::new(&schema.paths[pi].0) {
            Ok(n) => n,
            Err(e) => {
                proof {
                    assert(kept_segments(schema.paths@[pi as int].0@).len() == 0);
                }
                return Err(e);
            },
        };
        let ops = &schema.paths[pi].1;
        let mut blocks: Vec<String> = Vec::new();
        let ghost warn_prefix = warning_views(warnings@);
        let mut oi: usize = 0;
        proof {
            assert(ops_warning_views(ops@.take(0), schema.components) =~~= Seq::<
                WarningView,
            >::empty());
            assert(warning_views(warnings@) =~~= warn_prefix + ops_warning_views(
                ops@.take(0),
                schema.components,
            ));
        }
        while oi < ops.len()
            invariant
                oi <= ops@.len(),
                pi < schema.paths@.len(),
                ops == &schema.paths@[pi as int].1,
                blocks@.len() == oi,
                forall|j: int|
                    0 <= j < oi ==> is_block_for(
                        #[trigger] blocks.deep_view()[j],
                        names,
                        ops@[j].0,
                        ops@[j].1,
                        schema.components,
                    ),
                warning_views(warnings@) == warn_prefix + ops_warning_views(
                    ops@.take(oi as int),
                    schema.components,
                ),
            decreases ops@.len() - oi,
        {
            let (data, mut ws) = HttpData::new(
                &names,
                &ops[oi].1,
                &ops[oi].0,
                &schema.components,
            );
            let block = data.get_formatted();
            let ghost wsv = ws@;
            let ghost blocks_before = blocks.deep_view();
            let ghost warnings_before = warnings@;
            blocks.push(block);
            warnings.append(&mut ws);
            proof {
                assert(blocks.deep_view() =~~= blocks_before.push(formatted(data)));
                assert(builder_ok(
                    data,
                    wsv,
                    names,
                    ops@[oi as int].1,
                    ops@[oi as int].0,
                    schema.components,
                ));
                assert(is_block_for(
                    formatted(data),
                    names,
                    ops@[oi as int].0,
                    ops@[oi as int].1,
                    schema.components,
                ));
                assert(warning_views(warnings@) =~~= warning_views(warnings_before)
                    + warning_views(wsv));
                assert(ops@.take(oi + 1).drop_last() =~~= ops@.take(oi as int));
                assert(ops@.take(oi + 1).last() == ops@[oi as int]);
                assert(warning_views(warnings@) =~~= warn_prefix + ops_warning_views(
                    ops@.take(oi + 1),
                    schema.components,
                ));
            }
            oi = oi + 1;
        }
        proof {
            assert(ops@.take(ops@.len() as int) =~~= ops@);
        }
        let ghost entries_before = entries@;
        entries.push(EndpointDocs { names, blocks });
        proof {
            assert(schema.paths@.take(pi + 1).drop_last() =~~= schema.paths@.take(pi as int));
            assert(schema.paths@.take(pi + 1).last() == schema.paths@[pi as int]);
            assert(warning_views(warnings@) =~~= paths_warning_views(
                schema.paths@.take(pi + 1),
                schema.components,
            ));
            assert(entries@ =~~= entries_before.push(entries@[pi as int]));
            assert(blocks_for_ops(
                entries@[pi as int].blocks.deep_view(),
                entries@[pi as int].names,
                schema.paths@[pi as int].1@,
                schema.components,
            ));
        }
        pi = pi + 1;
    }
    proof {
        assert(schema.paths@.take(schema.paths@.len() as int) =~~= schema.paths@);
    }
    let ghost final_entries = entries@;
    let warnings_out = warnings;
    let (folders, documents) = aggregate(entries);
    let out = ConversionOutput { folders, documents, warnings: warnings_out };
    proof {
        assert(entries_wf(final_entries, *schema));
        assert(output_ok(out, final_entries));
    }
    Ok(out)
}

} // verus!
