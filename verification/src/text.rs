//! Splitting and joining of character sequences.
//!
//! The path resolver and the block formatter both reduce to these two
//! operations, so their mathematical models (`split_char`, `joined`) and the
//! executable helpers proved against them live here.

use vstd::prelude::*;

verus! {

/// True when the character `c` occurs somewhere in `s`.
pub open spec fn has_char(s: Seq<char>, c: char) -> bool {
    exists|i: int| 0 <= i < s.len() && s[i] == c
}

/// Index of the last occurrence of `c` in `s`, or `-1` when `c` does not
/// occur.
pub open spec fn last_index_of(s: Seq<char>, c: char) -> int
    decreases s.len(),
{
    if s.len() == 0 {
        -1
    } else if s.last() == c {
        s.len() - 1
    } else {
        last_index_of(s.drop_last(), c)
    }
}

pub proof fn lemma_last_index_of(s: Seq<char>, c: char)
    ensures
        -1 <= last_index_of(s, c) < s.len(),
        0 <= last_index_of(s, c) <==> has_char(s, c),
        0 <= last_index_of(s, c) ==> s[last_index_of(s, c)] == c,
        forall|i: int| last_index_of(s, c) < i < s.len() ==> s[i] != c,
    decreases s.len(),
{
    if s.len() > 0 && s.last() != c {
        lemma_last_index_of(s.drop_last(), c);
        assert forall|i: int| 0 <= i < s.len() && s[i] == c implies last_index_of(s, c) >= 0 by {
            assert(i < s.len() - 1);
            assert(s.drop_last()[i] == c);
        }
        assert forall|i: int| last_index_of(s, c) < i < s.len() implies s[i] != c by {
            if i < s.len() - 1 {
                assert(s.drop_last()[i] == s[i]);
            }
        }
    }
}

/// The pieces of `s` lying between occurrences of the separator `sep`.
/// A sequence without the separator is one piece; every separator adds one,
/// so the result is never empty and adjacent separators yield empty pieces.
pub open spec fn split_char(s: Seq<char>, sep: char) -> Seq<Seq<char>>
    decreases s.len(),
    via split_char_decreases
{
    let i = last_index_of(s, sep);
    if i < 0 {
        seq![s]
    } else {
        split_char(s.take(i), sep).push(s.skip(i + 1))
    }
}

#[via_fn]
proof fn split_char_decreases(s: Seq<char>, sep: char) {
    lemma_last_index_of(s, sep);
}

pub proof fn lemma_split_char_len(s: Seq<char>, sep: char)
    ensures
        split_char(s, sep).len() >= 1,
    decreases s.len(),
{
    lemma_last_index_of(s, sep);
    let i = last_index_of(s, sep);
    if i >= 0 {
        lemma_split_char_len(s.take(i), sep);
    }
}

/// Appending a non-separator character extends the final piece.
pub proof fn lemma_split_char_push_other(s: Seq<char>, sep: char, c: char)
    requires
        c != sep,
    ensures
        split_char(s, sep).len() >= 1,
        split_char(s.push(c), sep) == split_char(s, sep).drop_last().push(
            split_char(s, sep).last().push(c),
        ),
{
    lemma_split_char_len(s, sep);
    lemma_last_index_of(s, sep);
    lemma_last_index_of(s.push(c), sep);
    assert(s.push(c).drop_last() =~= s);
    assert(s.push(c).last() == c);
    let i = last_index_of(s, sep);
    assert(last_index_of(s.push(c), sep) == i);
    if i < 0 {
        assert(split_char(s.push(c), sep) =~~= seq![s.push(c)]);
        assert(split_char(s, sep).drop_last().push(split_char(s, sep).last().push(c)) =~~= seq![
            s.push(c),
        ]);
    } else {
        assert(s.push(c).take(i) =~= s.take(i));
        assert(s.push(c).skip(i + 1) =~= s.skip(i + 1).push(c));
        assert(split_char(s.push(c), sep) =~~= split_char(s.take(i), sep).push(
            s.skip(i + 1).push(c),
        ));
        assert(split_char(s, sep).drop_last() =~~= split_char(s.take(i), sep));
        assert(split_char(s, sep).last() == s.skip(i + 1));
    }
}

/// Appending the separator closes the final piece and opens an empty one.
pub proof fn lemma_split_char_push_sep(s: Seq<char>, sep: char)
    ensures
        split_char(s.push(sep), sep) == split_char(s, sep).push(Seq::<char>::empty()),
{
    assert(s.push(sep).last() == sep);
    assert(last_index_of(s.push(sep), sep) == s.len());
    assert(s.push(sep).take(s.len() as int) =~= s);
    assert(s.push(sep).skip(s.len() as int + 1) =~= Seq::<char>::empty());
    assert(split_char(s.push(sep), sep) =~~= split_char(s, sep).push(Seq::<char>::empty()));
}

/// No piece of a split contains the separator.
pub proof fn lemma_split_char_no_sep(s: Seq<char>, sep: char)
    ensures
        forall|i: int|
            0 <= i < split_char(s, sep).len() ==> !has_char(#[trigger] split_char(s, sep)[i], sep),
    decreases s.len(),
{
    lemma_last_index_of(s, sep);
    let k = last_index_of(s, sep);
    if k < 0 {
        assert forall|i: int| 0 <= i < split_char(s, sep).len() implies !has_char(
            #[trigger] split_char(s, sep)[i],
            sep,
        ) by {
            assert(split_char(s, sep)[i] == s);
        }
    } else {
        lemma_split_char_no_sep(s.take(k), sep);
        let tail = s.skip(k + 1);
        assert(!has_char(tail, sep)) by {
            assert forall|i: int| 0 <= i < tail.len() implies tail[i] != sep by {
                assert(tail[i] == s[k + 1 + i]);
            }
        }
        assert forall|i: int| 0 <= i < split_char(s, sep).len() implies !has_char(
            #[trigger] split_char(s, sep)[i],
            sep,
        ) by {
            if i < split_char(s.take(k), sep).len() {
                assert(split_char(s, sep)[i] == split_char(s.take(k), sep)[i]);
            } else {
                assert(split_char(s, sep)[i] == tail);
            }
        }
    }
}

/// In `a + [sep] + b` with no separator in `b`, the last separator stands
/// exactly between `a` and `b`.
pub proof fn lemma_last_index_append(a: Seq<char>, b: Seq<char>, sep: char)
    requires
        !has_char(b, sep),
    ensures
        last_index_of(a + seq![sep] + b, sep) == a.len(),
    decreases b.len(),
{
    let s = a + seq![sep] + b;
    if b.len() == 0 {
        assert(s.last() == sep);
    } else {
        assert(s.last() == b.last());
        assert(b.last() != sep) by {
            assert(b[b.len() - 1] == b.last());
        }
        assert(!has_char(b.drop_last(), sep)) by {
            assert forall|i: int| 0 <= i < b.drop_last().len() implies b.drop_last()[i] != sep by {
                assert(b.drop_last()[i] == b[i]);
            }
        }
        lemma_last_index_append(a, b.drop_last(), sep);
        assert(s.drop_last() =~= a + seq![sep] + b.drop_last());
    }
}

/// Splitting undoes joining, as long as every piece is free of the
/// separator.
pub proof fn lemma_join_split_roundtrip(parts: Seq<Seq<char>>, sep: char)
    requires
        parts.len() > 0,
        forall|i: int| 0 <= i < parts.len() ==> !has_char(#[trigger] parts[i], sep),
    ensures
        split_char(joined(parts, seq![sep]), sep) == parts,
    decreases parts.len(),
{
    if parts.len() == 1 {
        let s = joined(parts, seq![sep]);
        assert(s == parts[0]);
        lemma_last_index_of(s, sep);
        assert(last_index_of(s, sep) < 0);
        assert(split_char(s, sep) =~~= parts);
    } else {
        let head = parts.drop_last();
        let last = parts.last();
        let s = joined(parts, seq![sep]);
        assert(s == joined(head, seq![sep]) + seq![sep] + last);
        lemma_last_index_append(joined(head, seq![sep]), last, sep);
        let k = joined(head, seq![sep]).len() as int;
        assert(s.take(k) =~= joined(head, seq![sep]));
        assert(s.skip(k + 1) =~= last);
        lemma_join_split_roundtrip(head, sep);
        assert(split_char(s, sep) =~~= split_char(joined(head, seq![sep]), sep).push(last));
        assert(split_char(s, sep) =~~= parts);
    }
}

/// Splitting distributes over a separator placed between two sequences.
pub proof fn lemma_split_append(a: Seq<char>, b: Seq<char>, sep: char)
    ensures
        split_char(a + seq![sep] + b, sep) == split_char(a, sep) + split_char(b, sep),
    decreases b.len(),
{
    let s = a + seq![sep] + b;
    lemma_last_index_of(b, sep);
    let j = last_index_of(b, sep);
    if j < 0 {
        assert(!has_char(b, sep));
        lemma_last_index_append(a, b, sep);
        assert(s.take(a.len() as int) =~= a);
        assert(s.skip(a.len() as int + 1) =~= b);
        assert(split_char(s, sep) =~~= split_char(a, sep).push(b));
        assert(split_char(b, sep) =~~= seq![b]);
        assert(split_char(s, sep) =~~= split_char(a, sep) + split_char(b, sep));
    } else {
        assert(last_index_of(s, sep) == a.len() + 1 + j) by {
            let tail = b.skip(j + 1);
            assert(!has_char(tail, sep)) by {
                assert forall|i: int| 0 <= i < tail.len() implies tail[i] != sep by {
                    assert(tail[i] == b[j + 1 + i]);
                }
            }
            assert(s =~= (a + seq![sep] + b.take(j)) + seq![sep] + tail);
            lemma_last_index_append(a + seq![sep] + b.take(j), tail, sep);
        }
        let k = a.len() + 1 + j;
        assert(s.take(k) =~= a + seq![sep] + b.take(j));
        assert(s.skip(k + 1) =~= b.skip(j + 1));
        lemma_split_append(a, b.take(j), sep);
        assert(split_char(s, sep) =~~= (split_char(a, sep) + split_char(b.take(j), sep)).push(
            b.skip(j + 1),
        ));
        assert(split_char(b, sep) =~~= split_char(b.take(j), sep).push(b.skip(j + 1)));
        assert(split_char(s, sep) =~~= split_char(a, sep) + split_char(b, sep));
    }
}

/// Index of the first occurrence of `c` in `s`, or `-1` when `c` does not
/// occur.
pub open spec fn first_index_of(s: Seq<char>, c: char) -> int
    decreases s.len(),
{
    if s.len() == 0 {
        -1
    } else if s[0] == c {
        0
    } else {
        let r = first_index_of(s.skip(1), c);
        if r < 0 {
            -1
        } else {
            r + 1
        }
    }
}

pub proof fn lemma_first_index_of(s: Seq<char>, c: char)
    ensures
        -1 <= first_index_of(s, c) < s.len(),
        0 <= first_index_of(s, c) <==> has_char(s, c),
        0 <= first_index_of(s, c) ==> s[first_index_of(s, c)] == c,
        forall|i: int| 0 <= i < first_index_of(s, c) ==> s[i] != c,
        first_index_of(s, c) < 0 ==> forall|i: int| 0 <= i < s.len() ==> s[i] != c,
    decreases s.len(),
{
    if s.len() > 0 && s[0] != c {
        lemma_first_index_of(s.skip(1), c);
        assert forall|i: int| 0 <= i < s.len() && s[i] == c implies first_index_of(s, c) >= 0 by {
            if i > 0 {
                assert(s.skip(1)[i - 1] == c);
            }
        }
        assert forall|i: int| 0 <= i < first_index_of(s, c) implies s[i] != c by {
            if i > 0 {
                assert(s.skip(1)[i - 1] == s[i]);
            }
        }
        if first_index_of(s, c) < 0 {
            assert forall|i: int| 0 <= i < s.len() implies s[i] != c by {
                if i > 0 {
                    assert(s.skip(1)[i - 1] == s[i]);
                }
            }
        }
    }
}

/// With no `c` in `a`, the first `c` of `a + [c] + b` stands right after `a`.
pub proof fn lemma_first_index_append(a: Seq<char>, b: Seq<char>, c: char)
    requires
        !has_char(a, c),
    ensures
        first_index_of(a + seq![c] + b, c) == a.len(),
    decreases a.len(),
{
    let s = a + seq![c] + b;
    if a.len() == 0 {
        assert(s[0] == c);
    } else {
        assert(s[0] == a[0]);
        assert(a[0] != c);
        assert(!has_char(a.skip(1), c)) by {
            assert forall|i: int| 0 <= i < a.skip(1).len() implies a.skip(1)[i] != c by {
                assert(a.skip(1)[i] == a[i + 1]);
            }
        }
        lemma_first_index_append(a.skip(1), b, c);
        assert(s.skip(1) =~= a.skip(1) + seq![c] + b);
    }
}

/// A sequence without the separator splits into itself alone.
pub proof fn lemma_split_no_sep_single(s: Seq<char>, sep: char)
    requires
        !has_char(s, sep),
    ensures
        split_char(s, sep) == seq![s],
{
    lemma_last_index_of(s, sep);
    assert(last_index_of(s, sep) < 0);
}

/// The splits of several pieces, laid end to end.
pub open spec fn splits_concat(parts: Seq<Seq<char>>, sep: char) -> Seq<Seq<char>>
    decreases parts.len(),
{
    if parts.len() == 0 {
        Seq::empty()
    } else {
        splits_concat(parts.drop_last(), sep) + split_char(parts.last(), sep)
    }
}

/// Splitting a join cuts exactly at the separators the join added: the
/// lines of the whole are the lines of the pieces, laid end to end.
pub proof fn lemma_split_joined(parts: Seq<Seq<char>>, sep: char)
    requires
        parts.len() > 0,
    ensures
        split_char(joined(parts, seq![sep]), sep) == splits_concat(parts, sep),
    decreases parts.len(),
{
    if parts.len() == 1 {
        assert(joined(parts, seq![sep]) == parts[0]);
        assert(parts.last() == parts[0]);
        assert(parts.drop_last() =~~= Seq::<Seq<char>>::empty());
        assert(splits_concat(parts.drop_last(), sep) == Seq::<Seq<char>>::empty());
        assert(splits_concat(parts, sep) =~~= split_char(parts[0], sep));
    } else {
        let head = parts.drop_last();
        lemma_split_joined(head, sep);
        assert(joined(parts, seq![sep]) == joined(head, seq![sep]) + seq![sep] + parts.last());
        lemma_split_append(joined(head, seq![sep]), parts.last(), sep);
        assert(split_char(joined(parts, seq![sep]), sep) =~~= splits_concat(parts, sep));
    }
}

/// Concatenation keeps freedom from a character.
pub proof fn lemma_concat_no_char(a: Seq<char>, b: Seq<char>, c: char)
    requires
        !has_char(a, c),
        !has_char(b, c),
    ensures
        !has_char(a + b, c),
{
    assert forall|i: int| 0 <= i < (a + b).len() implies (a + b)[i] != c by {
        if i < a.len() {
            assert((a + b)[i] == a[i]);
        } else {
            assert((a + b)[i] == b[i - a.len()]);
        }
    }
}

/// The concatenated splits of concatenated piece lists.
pub proof fn lemma_splits_concat_append(a: Seq<Seq<char>>, b: Seq<Seq<char>>, sep: char)
    ensures
        splits_concat(a + b, sep) == splits_concat(a, sep) + splits_concat(b, sep),
    decreases b.len(),
{
    if b.len() == 0 {
        assert(a + b =~~= a);
        assert(splits_concat(b, sep) == Seq::<Seq<char>>::empty());
        assert(splits_concat(a, sep) + splits_concat(b, sep) =~~= splits_concat(a, sep));
    } else {
        assert((a + b).drop_last() =~~= a + b.drop_last());
        assert((a + b).last() == b.last());
        lemma_splits_concat_append(a, b.drop_last(), sep);
        assert(splits_concat(a + b, sep) =~~= splits_concat(a, sep) + splits_concat(b, sep));
    }
}

/// A property of every line of every piece holds of every line of the
/// concatenated splits.
pub proof fn lemma_splits_concat_prop(
    parts: Seq<Seq<char>>,
    sep: char,
    p: spec_fn(Seq<char>) -> bool,
)
    requires
        forall|i: int, j: int|
            0 <= i < parts.len() && 0 <= j < split_char(parts[i], sep).len() ==> p(
                #[trigger] split_char(parts[i], sep)[j],
            ),
    ensures
        forall|x: int|
            0 <= x < splits_concat(parts, sep).len() ==> p(#[trigger] splits_concat(parts, sep)[x]),
    decreases parts.len(),
{
    if parts.len() > 0 {
        let head = parts.drop_last();
        assert forall|i: int, j: int|
            0 <= i < head.len() && 0 <= j < split_char(head[i], sep).len() implies p(
            #[trigger] split_char(head[i], sep)[j],
        ) by {
            assert(head[i] == parts[i]);
        }
        lemma_splits_concat_prop(head, sep, p);
        assert forall|x: int| 0 <= x < splits_concat(parts, sep).len() implies p(
            #[trigger] splits_concat(parts, sep)[x],
        ) by {
            if x < splits_concat(head, sep).len() {
                assert(splits_concat(parts, sep)[x] == splits_concat(head, sep)[x]);
            } else {
                let j = x - splits_concat(head, sep).len();
                assert(parts[parts.len() - 1] == parts.last());
                assert(splits_concat(parts, sep)[x] == split_char(parts.last(), sep)[j]);
            }
        }
    }
}

/// A join of pieces free of a character, with a separator free of it, is
/// free of it.
pub proof fn lemma_joined_no_char(parts: Seq<Seq<char>>, sep: Seq<char>, c: char)
    requires
        forall|i: int| 0 <= i < parts.len() ==> !has_char(#[trigger] parts[i], c),
        !has_char(sep, c),
    ensures
        !has_char(joined(parts, sep), c),
    decreases parts.len(),
{
    if parts.len() <= 1 {
    } else {
        let head = parts.drop_last();
        assert forall|i: int| 0 <= i < head.len() implies !has_char(#[trigger] head[i], c) by {
            assert(head[i] == parts[i]);
        }
        lemma_joined_no_char(head, sep, c);
        let a = joined(head, sep);
        let b = parts.last();
        assert(!has_char(b, c));
        let s = joined(parts, sep);
        assert(s == a + sep + b);
        assert forall|i: int| 0 <= i < s.len() implies s[i] != c by {
            if i < a.len() {
                assert(s[i] == a[i]);
            } else if i < a.len() + sep.len() {
                assert(s[i] == sep[i - a.len()]);
            } else {
                assert(s[i] == b[i - a.len() - sep.len()]);
            }
        }
    }
}

/// Everything a filter keeps was already in the sequence.
pub proof fn lemma_filter_elements<A>(s: Seq<A>, pred: spec_fn(A) -> bool)
    ensures
        forall|i: int|
            0 <= i < s.filter(pred).len() ==> s.contains(#[trigger] s.filter(pred)[i]),
    decreases s.len(),
{
    reveal(Seq::filter);
    if s.len() > 0 {
        lemma_filter_elements(s.drop_last(), pred);
        let f = s.filter(pred);
        let g = s.drop_last().filter(pred);
        assert forall|i: int| 0 <= i < f.len() implies s.contains(f[i]) by {
            if i < g.len() {
                assert(s.drop_last().contains(g[i]));
                let j = choose|j: int| 0 <= j < s.drop_last().len() && s.drop_last()[j] == g[i];
                assert(s[j] == f[i]);
            } else {
                assert(f[i] == s.last());
                assert(s[s.len() - 1] == s.last());
            }
        }
    }
}

/// Two equally long lists whose entries agree wherever either passes the
/// filter keep exactly the same entries.
pub proof fn lemma_filter_agree<A>(a: Seq<A>, b: Seq<A>, pred: spec_fn(A) -> bool)
    requires
        a.len() == b.len(),
        forall|i: int| 0 <= i < a.len() ==> (#[trigger] a[i] == #[trigger] b[i] || (!pred(a[i]) && !pred(b[i]))),
    ensures
        a.filter(pred) == b.filter(pred),
    decreases a.len(),
{
    reveal(Seq::filter);
    if a.len() > 0 {
        assert forall|i: int| 0 <= i < a.drop_last().len() implies (#[trigger] a.drop_last()[i]
            == #[trigger] b.drop_last()[i] || (!pred(a.drop_last()[i]) && !pred(
            b.drop_last()[i],
        ))) by {
            assert(a.drop_last()[i] == a[i]);
            assert(b.drop_last()[i] == b[i]);
        }
        lemma_filter_agree(a.drop_last(), b.drop_last(), pred);
        assert(a[a.len() - 1] == a.last());
        assert(b[b.len() - 1] == b.last());
    }
}

/// The pieces `parts` laid end to end with `sep` between neighbours.
pub open spec fn joined(parts: Seq<Seq<char>>, sep: Seq<char>) -> Seq<char>
    decreases parts.len(),
{
    if parts.len() == 0 {
        Seq::empty()
    } else if parts.len() == 1 {
        parts[0]
    } else {
        joined(parts.drop_last(), sep) + sep + parts.last()
    }
}

/// Appending one more piece extends the join by a separator and that piece.
pub proof fn lemma_joined_push(parts: Seq<Seq<char>>, sep: Seq<char>, x: Seq<char>)
    ensures
        joined(parts.push(x), sep) == if parts.len() == 0 {
            x
        } else {
            joined(parts, sep) + sep + x
        },
{
    assert(parts.push(x).drop_last() =~~= parts);
    assert(parts.push(x).last() == x);
    if parts.len() == 0 {
        assert(joined(parts.push(x), sep) == parts.push(x)[0]);
    }
}

/// Splits `s` at every occurrence of `sep`, in order.
pub fn split_string(s: &str, sep: char) -> (parts: Vec<String>)
    ensures
        parts.deep_view() == split_char(s@, sep),
{
    let len = s.unicode_len();
    let mut parts: Vec<String> = Vec::new();
    let mut start: usize = 0;
    let mut i: usize = 0;
    proof {
        assert(s@.take(0) =~= Seq::<char>::empty());
        assert(split_char(s@.take(0), sep) =~~= seq![Seq::<char>::empty()]);
        assert(parts.deep_view() =~~= Seq::<Seq<char>>::empty());
    }
    while i < len
        invariant
            start <= i <= len,
            len == s@.len(),
            split_char(s@.take(i as int), sep) == parts.deep_view().push(
                s@.subrange(start as int, i as int),
            ),
        decreases len - i,
    {
        let c = s.get_char(i);
        proof {
            assert(s@.take(i + 1) =~= s@.take(i as int).push(s@[i as int]));
        }
        if c == sep {
            let piece = s.substring_char(start, i).to_owned();
            let ghost old_parts = parts.deep_view();
            parts.push(piece);
            proof {
                assert(parts.deep_view() =~~= old_parts.push(s@.subrange(start as int, i as int)));
                lemma_split_char_push_sep(s@.take(i as int), sep);
                assert(split_char(s@.take(i + 1), sep) =~~= parts.deep_view().push(
                    Seq::<char>::empty(),
                ));
            }
            start = i + 1;
            proof {
                assert(s@.subrange(start as int, i + 1) =~= Seq::<char>::empty());
            }
        } else {
            proof {
                lemma_split_char_push_other(s@.take(i as int), sep, c);
                let before = split_char(s@.take(i as int), sep);
                assert(before.drop_last() =~~= parts.deep_view());
                assert(before.last() == s@.subrange(start as int, i as int));
                assert(s@.subrange(start as int, i as int).push(c) =~= s@.subrange(
                    start as int,
                    i + 1,
                ));
            }
        }
        i = i + 1;
    }
    let piece = s.substring_char(start, len).to_owned();
    let ghost old_parts = parts.deep_view();
    parts.push(piece);
    proof {
        assert(s@.take(len as int) =~= s@);
        assert(parts.deep_view() =~~= old_parts.push(s@.subrange(start as int, len as int)));
    }
    parts
}

/// Joins `parts` with `sep` between neighbours.
pub fn join_strings(parts: &Vec<String>, sep: &str) -> (r: String)
    ensures
        r@ == joined(parts.deep_view(), sep@),
{
    let mut r = String::new();
    let mut i: usize = 0;
    proof {
        assert(parts.deep_view().take(0) =~~= Seq::<Seq<char>>::empty());
    }
    while i < parts.len()
        invariant
            i <= parts.len(),
            r@ == joined(parts.deep_view().take(i as int), sep@),
        decreases parts.len() - i,
    {
        if i > 0 {
            r.append(sep);
        }
        r.append(parts[i].as_str());
        proof {
            let dv = parts.deep_view();
            assert(dv.take(i + 1).drop_last() =~~= dv.take(i as int));
            assert(dv.take(i + 1).last() == dv[i as int]);
            assert(dv[i as int] == parts[i as int]@);
        }
        i = i + 1;
    }
    proof {
        assert(parts.deep_view().take(parts.len() as int) =~~= parts.deep_view());
    }
    r
}

/// True when `c` occurs in `s`.
pub fn string_has_char(s: &str, c: char) -> (r: bool)
    ensures
        r == has_char(s@, c),
{
    let len = s.unicode_len();
    let mut i: usize = 0;
    while i < len
        invariant
            i <= len,
            len == s@.len(),
            forall|j: int| 0 <= j < i ==> s@[j] != c,
        decreases len - i,
    {
        if s.get_char(i) == c {
            return true;
        }
        i = i + 1;
    }
    false
}

} // verus!
