//! Properties of the row filter, stated over its model and proved.
use vstd::prelude::*;

use crate::text::{
    ends_with_cr, has_sub, join_lines, lemma_join_append, lemma_join_lines_of,
    lemma_lines_have_no_newline, lemma_lines_of_join, lines_of, no_newline,
};
use crate::trim::{
    out_from, row_close, row_open, start_state, state_from, step, step_out, table_close,
    trim_text, trimmed, TrimState,
};

verus! {

/// Every line of `out` is one of the lines of `ls`.
pub open spec fn lines_among(out: Seq<Seq<char>>, ls: Seq<Seq<char>>) -> bool {
    forall|i: int| 0 <= i < out.len() ==> ls.contains(#[trigger] out[i])
}

/// No line of `ls` holds the table-close marker.
pub open spec fn before_table_end(ls: Seq<Seq<char>>) -> bool {
    forall|i: int| 0 <= i < ls.len() ==> !has_sub(#[trigger] ls[i], table_close())
}

proof fn lemma_run_append(st: TrimState, a: Seq<Seq<char>>, b: Seq<Seq<char>>, pat: Seq<char>)
    ensures
        out_from(st, a + b, pat) == out_from(st, a, pat) + out_from(state_from(st, a, pat), b, pat),
        state_from(st, a + b, pat) == state_from(state_from(st, a, pat), b, pat),
    decreases b.len(),
{
    if b.len() == 0 {
        assert(a + b =~= a);
        assert(out_from(st, a, pat) + out_from(state_from(st, a, pat), b, pat) =~= out_from(st, a, pat));
    } else {
        lemma_run_append(st, a, b.drop_last(), pat);
        assert((a + b).drop_last() =~= a + b.drop_last());
        assert((a + b).last() == b.last());
        assert(out_from(st, a + b, pat) =~= out_from(st, a, pat) + out_from(state_from(st, a, pat), b, pat));
    }
}

proof fn lemma_out_among(st: TrimState, ls: Seq<Seq<char>>, pat: Seq<char>)
    ensures
        lines_among(out_from(st, ls, pat), ls),
    decreases ls.len(),
{
    if ls.len() > 0 {
        let prev = ls.drop_last();
        lemma_out_among(st, prev, pat);
        let out = out_from(st, ls, pat);
        let po = out_from(st, prev, pat);
        assert forall|i: int| 0 <= i < out.len() implies ls.contains(#[trigger] out[i]) by {
            if i < po.len() {
                assert(prev.contains(po[i]));
                let j = choose|j: int| 0 <= j < prev.len() && prev[j] == po[i];
                assert(ls[j] == out[i]);
            } else {
                assert(ls[ls.len() - 1] == out[i]);
            }
        }
    }
}

/// While no line opens a row holding `pat` and the table goes on, nothing
/// is written and the state stays at its start.
proof fn lemma_none_kept(ls: Seq<Seq<char>>, pat: Seq<char>)
    requires
        forall|i: int| 0 <= i < ls.len() ==> !has_sub(#[trigger] ls[i], table_close()),
        forall|i: int| 0 <= i < ls.len() ==> !(has_sub(#[trigger] ls[i], row_open()) && has_sub(ls[i], pat)),
    ensures
        trimmed(ls, pat) == Seq::<Seq<char>>::empty(),
        state_from(start_state(), ls, pat) == start_state(),
    decreases ls.len(),
{
    if ls.len() > 0 {
        let prev = ls.drop_last();
        assert(ls.last() == ls[ls.len() - 1]);
        lemma_none_kept(prev, pat);
        assert(trimmed(ls, pat) =~= Seq::<Seq<char>>::empty());
    }
}

/// After the table, every line is written, and a line with the
/// table-close marker twice.
proof fn lemma_after_table(st: TrimState, ls: Seq<Seq<char>>, pat: Seq<char>)
    requires
        !st.in_table,
    ensures
        !state_from(st, ls, pat).in_table,
        before_table_end(ls) ==> out_from(st, ls, pat) == ls,
    decreases ls.len(),
{
    if ls.len() > 0 {
        let prev = ls.drop_last();
        lemma_after_table(st, prev, pat);
        if before_table_end(ls) {
            assert(ls.last() == ls[ls.len() - 1]);
            assert(out_from(st, ls, pat) =~= ls);
        }
    }
}

/// A document in which no line holds a row-open, row-close or table-close
/// marker is filtered to nothing.
pub proof fn law_no_markers_gives_nothing(doc: Seq<char>, pat: Seq<char>)
    requires
        forall|i: int|
            0 <= i < lines_of(doc).len() ==> {
                &&& !has_sub(#[trigger] lines_of(doc)[i], row_open())
                &&& !has_sub(lines_of(doc)[i], row_close())
                &&& !has_sub(lines_of(doc)[i], table_close())
            },
    ensures
        trimmed(lines_of(doc), pat) == Seq::<Seq<char>>::empty(),
        trim_text(doc, pat) == Seq::<char>::empty(),
{
    lemma_none_kept(lines_of(doc), pat);
}

/// Every line lies inside a row: the first line opens one, and a line that
/// opens none follows a line that closes none.
pub open spec fn all_in_rows(ls: Seq<Seq<char>>) -> bool {
    &&& ls.len() > 0 ==> has_sub(ls[0], row_open())
    &&& forall|i: int|
        0 < i < ls.len() ==> has_sub(#[trigger] ls[i], row_open()) || !has_sub(ls[i - 1], row_close())
}

proof fn lemma_all_kept(ls: Seq<Seq<char>>, pat: Seq<char>, k: int)
    requires
        0 <= k <= ls.len(),
        all_in_rows(ls),
        before_table_end(ls),
        forall|i: int| 0 <= i < ls.len() && has_sub(#[trigger] ls[i], row_open()) ==> has_sub(ls[i], pat),
    ensures
        trimmed(ls.take(k), pat) == ls.take(k),
        state_from(start_state(), ls.take(k), pat) == (TrimState {
            retain: k > 0 && !has_sub(ls[k - 1], row_close()),
            in_table: true,
        }),
    decreases k,
{
    if k > 0 {
        lemma_all_kept(ls, pat, k - 1);
        assert(ls.take(k).drop_last() =~= ls.take(k - 1));
        assert(ls.take(k).last() == ls[k - 1]);
        assert(!has_sub(ls[k - 1], table_close()));
        assert(ls.take(k) =~= ls.take(k - 1).push(ls[k - 1]));
    }
}

/// When every line lies inside a row, every row-open line holds the
/// substring and no line holds the table-close marker, every line is kept:
/// the output is the input, with each line ended by a line feed.
pub proof fn law_matching_rows_kept(doc: Seq<char>, pat: Seq<char>)
    requires
        all_in_rows(lines_of(doc)),
        before_table_end(lines_of(doc)),
        forall|i: int|
            0 <= i < lines_of(doc).len() && has_sub(#[trigger] lines_of(doc)[i], row_open())
                ==> has_sub(lines_of(doc)[i], pat),
    ensures
        trimmed(lines_of(doc), pat) == lines_of(doc),
        trim_text(doc, pat) == join_lines(lines_of(doc)),
        (forall|i: int| 0 <= i < doc.len() ==> doc[i] != '\r') && (doc.len() == 0 || doc.last() == '\n')
            ==> trim_text(doc, pat) == doc,
{
    let ls = lines_of(doc);
    lemma_all_kept(ls, pat, ls.len() as int);
    assert(ls.take(ls.len() as int) =~= ls);
    if (forall|i: int| 0 <= i < doc.len() ==> doc[i] != '\r') && (doc.len() == 0 || doc.last() == '\n') {
        lemma_join_lines_of(doc);
    }
}

/// The lines after a table-close line are written unchanged, whatever the
/// substring, when no later line holds that marker again; the table-close
/// line itself is the last line written before them.
pub proof fn law_tail_kept(doc: Seq<char>, pat: Seq<char>, c: int)
    requires
        0 <= c < lines_of(doc).len(),
        has_sub(lines_of(doc)[c], table_close()),
        before_table_end(lines_of(doc).skip(c + 1)),
    ensures
        trimmed(lines_of(doc), pat) == trimmed(lines_of(doc).take(c + 1), pat) + lines_of(doc).skip(c + 1),
        trimmed(lines_of(doc).take(c + 1), pat).last() == lines_of(doc)[c],
        trim_text(doc, pat) == join_lines(trimmed(lines_of(doc).take(c + 1), pat)) + join_lines(
            lines_of(doc).skip(c + 1),
        ),
{
    let ls = lines_of(doc);
    let head = ls.take(c + 1);
    let tail = ls.skip(c + 1);
    assert(ls =~= head + tail);
    lemma_run_append(start_state(), head, tail, pat);
    assert(head.drop_last() =~= ls.take(c));
    assert(head.last() == ls[c]);
    lemma_after_table(state_from(start_state(), head, pat), tail, pat);
    lemma_join_append(trimmed(head, pat), tail);
}

/// When no line holds the substring and no line holds the table-close
/// marker, nothing is written.
pub proof fn law_absent_without_table_end(doc: Seq<char>, pat: Seq<char>)
    requires
        forall|i: int| 0 <= i < lines_of(doc).len() ==> !has_sub(#[trigger] lines_of(doc)[i], pat),
        before_table_end(lines_of(doc)),
    ensures
        trimmed(lines_of(doc), pat) == Seq::<Seq<char>>::empty(),
        trim_text(doc, pat) == Seq::<char>::empty(),
{
    lemma_none_kept(lines_of(doc), pat);
}

/// When no line holds the substring, the output is made of lines from the
/// first table-close line on: it begins with that line, and it is exactly
/// the document from that line on when no later line holds the marker.
pub proof fn law_absent_from_table_end(doc: Seq<char>, pat: Seq<char>, c: int)
    requires
        forall|i: int| 0 <= i < lines_of(doc).len() ==> !has_sub(#[trigger] lines_of(doc)[i], pat),
        0 <= c < lines_of(doc).len(),
        has_sub(lines_of(doc)[c], table_close()),
        before_table_end(lines_of(doc).take(c)),
    ensures
        lines_among(trimmed(lines_of(doc), pat), lines_of(doc).skip(c)),
        trimmed(lines_of(doc), pat).len() > 0,
        trimmed(lines_of(doc), pat)[0] == lines_of(doc)[c],
        before_table_end(lines_of(doc).skip(c + 1)) ==> trimmed(lines_of(doc), pat) == lines_of(
            doc,
        ).skip(c),
{
    let ls = lines_of(doc);
    let head = ls.take(c);
    let tail = ls.skip(c);
    let rest = ls.skip(c + 1);
    assert(ls =~= head + tail);
    lemma_none_kept(head, pat);
    lemma_run_append(start_state(), head, tail, pat);
    assert(tail =~= seq![ls[c]] + rest);
    lemma_run_append(start_state(), seq![ls[c]], rest, pat);
    assert(seq![ls[c]].drop_last() =~= Seq::<Seq<char>>::empty());
    assert(seq![ls[c]].last() == ls[c]);
    let first = out_from(start_state(), seq![ls[c]], pat);
    assert(!has_sub(ls[c], pat));
    assert(out_from(start_state(), Seq::<Seq<char>>::empty(), pat) =~= Seq::<Seq<char>>::empty());
    assert(state_from(start_state(), Seq::<Seq<char>>::empty(), pat) == start_state());
    assert(first =~= seq![ls[c]]);
    let st = state_from(start_state(), seq![ls[c]], pat);
    assert(!st.in_table);
    lemma_out_among(st, rest, pat);
    lemma_after_table(st, rest, pat);
    let out = trimmed(ls, pat);
    assert(out =~= first + out_from(st, rest, pat));
    assert forall|i: int| 0 <= i < out.len() implies tail.contains(#[trigger] out[i]) by {
        if i == 0 {
            assert(tail[0] == out[i]);
        } else {
            let o = out_from(st, rest, pat);
            assert(out[i] == o[i - 1]);
            assert(rest.contains(o[i - 1]));
            let j = choose|j: int| 0 <= j < rest.len() && rest[j] == o[i - 1];
            assert(tail[j + 1] == out[i]);
        }
    }
}

/// A row is open after the lines `ls`: the last line with a row marker
/// opened a row and did not close it.
pub open spec fn row_is_open(ls: Seq<Seq<char>>) -> bool
    decreases ls.len(),
{
    if ls.len() == 0 {
        false
    } else if has_sub(ls.last(), row_close()) {
        false
    } else if has_sub(ls.last(), row_open()) {
        true
    } else {
        row_is_open(ls.drop_last())
    }
}

/// The markers of `ls` are well formed: within the table a row is closed
/// before the next one opens, the table-close line stands outside any row
/// and opens none, and no line after it holds the marker again.
pub open spec fn well_formed(ls: Seq<Seq<char>>) -> bool
    decreases ls.len(),
{
    if ls.len() == 0 {
        true
    } else {
        let prev = ls.drop_last();
        let l = ls.last();
        &&& well_formed(prev)
        &&& has_sub(l, table_close()) ==> before_table_end(prev) && !has_sub(l, row_open())
            && !row_is_open(prev)
        &&& before_table_end(prev) && has_sub(l, row_open()) ==> !row_is_open(prev)
    }
}

proof fn lemma_state_tracks_rows(ls: Seq<Seq<char>>, pat: Seq<char>)
    ensures
        state_from(start_state(), ls, pat).retain ==> row_is_open(ls),
        state_from(start_state(), ls, pat).in_table == before_table_end(ls),
    decreases ls.len(),
{
    if ls.len() > 0 {
        lemma_state_tracks_rows(ls.drop_last(), pat);
        assert(ls.last() == ls[ls.len() - 1]);
        if before_table_end(ls) {
            assert forall|i: int| 0 <= i < ls.drop_last().len() implies !has_sub(
                #[trigger] ls.drop_last()[i],
                table_close(),
            ) by {
                assert(ls.drop_last()[i] == ls[i]);
            }
        }
        if before_table_end(ls.drop_last()) && !has_sub(ls.last(), table_close()) {
            assert forall|i: int| 0 <= i < ls.len() implies !has_sub(#[trigger] ls[i], table_close()) by {
                if i < ls.len() - 1 {
                    assert(ls.drop_last()[i] == ls[i]);
                }
            }
        }
    }
}

proof fn lemma_out_one(st: TrimState, l: Seq<char>, pat: Seq<char>)
    ensures
        out_from(st, seq![l], pat) == step_out(st, l, pat),
        state_from(st, seq![l], pat) == step(st, l, pat),
{
    assert(seq![l].drop_last() =~= Seq::<Seq<char>>::empty());
    assert(out_from(st, Seq::<Seq<char>>::empty(), pat) =~= Seq::<Seq<char>>::empty());
    assert(out_from(st, seq![l], pat) =~= step_out(st, l, pat));
}

proof fn lemma_trim_twice(ls: Seq<Seq<char>>, pat: Seq<char>)
    requires
        well_formed(ls),
    ensures
        trimmed(trimmed(ls, pat), pat) == trimmed(ls, pat),
        state_from(start_state(), trimmed(ls, pat), pat) == state_from(start_state(), ls, pat),
    decreases ls.len(),
{
    if ls.len() == 0 {
        assert(trimmed(ls, pat) =~= Seq::<Seq<char>>::empty());
    } else {
        let prev = ls.drop_last();
        let l = ls.last();
        lemma_trim_twice(prev, pat);
        lemma_state_tracks_rows(prev, pat);
        let y = trimmed(prev, pat);
        let st = state_from(start_state(), prev, pat);
        let o = step_out(st, l, pat);
        lemma_run_append(start_state(), y, o, pat);
        if o.len() == 0 {
            assert(o =~= Seq::<Seq<char>>::empty());
            assert(y + o =~= y);
            assert(step(st, l, pat) == st);
        } else {
            assert(o =~= seq![l]);
            lemma_out_one(st, l, pat);
        }
    }
}

/// Filtering the lines kept of a document with well-formed markers a
/// second time, with the same substring, gives those lines again.
pub proof fn law_trim_idempotent(ls: Seq<Seq<char>>, pat: Seq<char>)
    requires
        well_formed(ls),
    ensures
        trimmed(trimmed(ls, pat), pat) == trimmed(ls, pat),
{
    lemma_trim_twice(ls, pat);
}

/// Running the filter on its own output, with the same substring, gives
/// that output again, when the document's markers are well formed and none
/// of its lines ends with a carriage return.
pub proof fn law_trim_text_idempotent(doc: Seq<char>, pat: Seq<char>)
    requires
        well_formed(lines_of(doc)),
        forall|i: int| 0 <= i < lines_of(doc).len() ==> !ends_with_cr(#[trigger] lines_of(doc)[i]),
    ensures
        trim_text(trim_text(doc, pat), pat) == trim_text(doc, pat),
{
    let ls = lines_of(doc);
    let y = trimmed(ls, pat);
    lemma_trim_twice(ls, pat);
    lemma_out_among(start_state(), ls, pat);
    lemma_lines_have_no_newline(doc);
    assert forall|i: int| 0 <= i < y.len() implies no_newline(#[trigger] y[i]) && !ends_with_cr(y[i]) by {
        assert(ls.contains(y[i]));
        let j = choose|j: int| 0 <= j < ls.len() && ls[j] == y[i];
        assert(no_newline(ls[j]));
        assert(!ends_with_cr(ls[j]));
    }
    lemma_lines_of_join(y);
}

} // verus!
