//! The row filter: keeps the table rows whose opening line holds a
//! substring, and everything from the end of the table on.
use vstd::prelude::*;

use crate::text::{append_chars, chars_of, contains, has_sub, join_lines, lines_of, split_lines, string_of};

verus! {

/// The marker that opens a table row.
pub open spec fn row_open() -> Seq<char> {
    seq!['<', 'T', 'R', '>']
}

/// The marker that closes a table row.
pub open spec fn row_close() -> Seq<char> {
    seq!['<', '/', 'T', 'R', '>']
}

/// The marker that closes the table.
pub open spec fn table_close() -> Seq<char> {
    seq!['<', '/', 'T', 'A', 'B', 'L', 'E', '>']
}

/// The two flags that the filter carries from one line to the next.
pub struct TrimState {
    /// Lines of the current row are kept.
    pub retain: bool,
    /// The table-close marker has not been seen yet.
    pub in_table: bool,
}

/// The state before the first line.
pub open spec fn start_state() -> TrimState {
    TrimState { retain: false, in_table: true }
}

/// The retention flag once `line` has been looked at for a row-open marker:
/// a row-open line decides from its own text alone.
pub open spec fn retain_at(st: TrimState, line: Seq<char>, pat: Seq<char>) -> bool {
    if has_sub(line, row_open()) {
        has_sub(line, pat)
    } else {
        st.retain
    }
}

/// The lines that the filter writes for `line` in state `st`. Inside the
/// table a line is written when its row is kept; after the table every
/// line is written. A line with the table-close marker is written once
/// more, whatever came before, so it appears twice when its row is kept.
pub open spec fn step_out(st: TrimState, line: Seq<char>, pat: Seq<char>) -> Seq<Seq<char>> {
    let first: Seq<Seq<char>> = if !st.in_table || retain_at(st, line, pat) {
        seq![line]
    } else {
        seq![]
    };
    if has_sub(line, table_close()) {
        first.push(line)
    } else {
        first
    }
}

/// The state after `line`.
pub open spec fn step(st: TrimState, line: Seq<char>, pat: Seq<char>) -> TrimState {
    TrimState {
        retain: if has_sub(line, row_close()) {
            false
        } else {
            retain_at(st, line, pat)
        },
        in_table: st.in_table && !has_sub(line, table_close()),
    }
}

/// The state after the lines `ls`, starting from `st`.
pub open spec fn state_from(st: TrimState, ls: Seq<Seq<char>>, pat: Seq<char>) -> TrimState
    decreases ls.len(),
{
    if ls.len() == 0 {
        st
    } else {
        step(state_from(st, ls.drop_last(), pat), ls.last(), pat)
    }
}

/// The lines written for `ls`, starting from `st`.
pub open spec fn out_from(st: TrimState, ls: Seq<Seq<char>>, pat: Seq<char>) -> Seq<Seq<char>>
    decreases ls.len(),
{
    if ls.len() == 0 {
        seq![]
    } else {
        out_from(st, ls.drop_last(), pat) + step_out(
            state_from(st, ls.drop_last(), pat),
            ls.last(),
            pat,
        )
    }
}

/// The lines that the filter keeps of the document `ls`.
pub open spec fn trimmed(ls: Seq<Seq<char>>, pat: Seq<char>) -> Seq<Seq<char>> {
    out_from(start_state(), ls, pat)
}

/// The text that the filter makes of the document `doc`: the kept lines,
/// each ended by a line feed.
pub open spec fn trim_text(doc: Seq<char>, pat: Seq<char>) -> Seq<char> {
    join_lines(trimmed(lines_of(doc), pat))
}

proof fn lemma_out_step(st: TrimState, ls: Seq<Seq<char>>, k: int, pat: Seq<char>)
    requires
        0 <= k < ls.len(),
    ensures
        out_from(st, ls.take(k + 1), pat) == out_from(st, ls.take(k), pat) + step_out(
            state_from(st, ls.take(k), pat),
            ls[k],
            pat,
        ),
        state_from(st, ls.take(k + 1), pat) == step(state_from(st, ls.take(k), pat), ls[k], pat),
{
    assert(ls.take(k + 1).drop_last() =~= ls.take(k));
}

/// Appends `line` and a line feed to `out`.
fn emit(out: &mut Vec<char>, line: &Vec<char>)
    ensures
        final(out)@ == old(out)@ + line@ + seq!['\n'],
{
    append_chars(out, line);
    out.push('\n');
    assert(out@ =~= old(out)@ + line@ + seq!['\n']);
}

/// Keeps, of the document `content`, the table rows whose opening line
/// holds `trim_string`, then the table-close line and everything after it.
/// Each line of the result ends with a line feed.
pub fn trim_results(content: &str, trim_string: &str) -> (r: String)
    ensures
        r@ == trim_text(content@, trim_string@),
{
    let open_marker: Vec<char> = vec!['<', 'T', 'R', '>'];
    let close_marker: Vec<char> = vec!['<', '/', 'T', 'R', '>'];
    let end_marker: Vec<char> = vec!['<', '/', 'T', 'A', 'B', 'L', 'E', '>'];
    assert(open_marker@ =~= row_open());
    assert(close_marker@ =~= row_close());
    assert(end_marker@ =~= table_close());
    let pat = chars_of(trim_string);
    let text = chars_of(content);
    let lines = split_lines(&text);
    let ghost ls = lines_of(content@);
    let mut out: Vec<char> = Vec::new();
    let mut retain = false;
    let mut in_table = true;
    let mut k: usize = 0;
    assert(ls.take(0) =~= seq![]);
    while k < lines.len()
        invariant
            k <= lines@.len() == ls.len(),
            forall|j: int| 0 <= j < ls.len() ==> #[trigger] lines@[j]@ == ls[j],
            open_marker@ == row_open(),
            close_marker@ == row_close(),
            end_marker@ == table_close(),
            pat@ == trim_string@,
            out@ == join_lines(trimmed(ls.take(k as int), pat@)),
            retain == state_from(start_state(), ls.take(k as int), pat@).retain,
            in_table == state_from(start_state(), ls.take(k as int), pat@).in_table,
        decreases ls.len() - k,
    {
        let line = &lines[k];
        proof {
            lemma_out_step(start_state(), ls, k as int, pat@);
            assert(line@ == ls[k as int]);
            crate::text::lemma_join_append(
                trimmed(ls.take(k as int), pat@),
                step_out(state_from(start_state(), ls.take(k as int), pat@), ls[k as int], pat@),
            );
        }
        let ghost st = state_from(start_state(), ls.take(k as int), pat@);
        let ghost before = out@;
        if contains(line, &open_marker) {
            retain = contains(line, &pat);
        }
        if !in_table || retain {
            emit(&mut out, line);
        }
        if contains(line, &end_marker) {
            in_table = false;
            emit(&mut out, line);
        }
        if contains(line, &close_marker) {
            retain = false;
        }
        proof {
            let so = step_out(st, line@, pat@);
            reveal_with_fuel(join_lines, 3);
            assert(out@ =~= before + join_lines(so));
        }
        k = k + 1;
    }
    assert(ls.take(ls.len() as int) =~= ls);
    string_of(&out)
}

} // verus!
