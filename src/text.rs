//! Character-level text helpers: substring search and line splitting.
use vstd::prelude::*;

verus! {

/// `p` occurs in `s` starting at position `i`.
pub open spec fn occurs_at(s: Seq<char>, p: Seq<char>, i: int) -> bool {
    0 <= i && i + p.len() <= s.len() && s.subrange(i, i + p.len()) == p
}

/// `p` occurs somewhere in `s` as a contiguous substring.
pub open spec fn has_sub(s: Seq<char>, p: Seq<char>) -> bool {
    exists|i: int| occurs_at(s, p, i)
}

/// Whether `p` occurs in `s` at position `i`, checked character by character.
pub(crate) fn matches_at(s: &Vec<char>, p: &Vec<char>, i: usize) -> (r: bool)
    requires
        i + p@.len() <= s@.len(),
    ensures
        r == occurs_at(s@, p@, i as int),
{
    let n: usize = s.len();
    let mut j: usize = 0;
    while j < p.len()
        invariant
            j <= p@.len(),
            i + p@.len() <= s@.len(),
            n == s@.len(),
            forall|k: int| 0 <= k < j ==> s@[i + k] == p@[k],
        decreases p@.len() - j,
    {
        if s[i + j] != p[j] {
            assert(s@.subrange(i as int, i + p@.len())[j as int] != p@[j as int]);
            return false;
        }
        j = j + 1;
    }
    assert(s@.subrange(i as int, i + p@.len()) =~= p@);
    true
}

/// Whether `p` occurs anywhere in `s`.
pub fn contains(s: &Vec<char>, p: &Vec<char>) -> (r: bool)
    ensures
        r == has_sub(s@, p@),
{
    if p.len() > s.len() {
        return false;
    }
    let last: usize = s.len() - p.len();
    let mut i: usize = 0;
    loop
        invariant
            last + p@.len() == s@.len(),
            i <= last,
            forall|k: int| 0 <= k < i ==> !occurs_at(s@, p@, k),
        decreases last - i,
    {
        if matches_at(s, p, i) {
            return true;
        }
        if i == last {
            return false;
        }
        i = i + 1;
    }
}

/// Position of the first line feed in `s`, or `s.len()` when there is none.
pub open spec fn first_newline(s: Seq<char>) -> nat
    decreases s.len(),
{
    if s.len() == 0 || s[0] == '\n' {
        0
    } else {
        1 + first_newline(s.drop_first())
    }
}

/// A line without the carriage return that preceded its line feed.
pub open spec fn strip_cr(l: Seq<char>) -> Seq<char> {
    if l.len() > 0 && l.last() == '\r' {
        l.drop_last()
    } else {
        l
    }
}

/// The lines of `s`: pieces ended by `\n` or `\r\n`, the ending left out.
/// A final piece with no ending counts as a line when it is not empty,
/// so text that ends in a line ending yields no empty last line.
pub open spec fn lines_of(s: Seq<char>) -> Seq<Seq<char>>
    decreases s.len(),
{
    if s.len() == 0 {
        seq![]
    } else {
        let n = first_newline(s);
        if n >= s.len() {
            seq![s]
        } else {
            seq![strip_cr(s.take(n as int))] + lines_of(s.skip((n + 1) as int))
        }
    }
}

/// Each line followed by a line feed, all of them in order.
pub open spec fn join_lines(ls: Seq<Seq<char>>) -> Seq<char>
    decreases ls.len(),
{
    if ls.len() == 0 {
        seq![]
    } else {
        join_lines(ls.drop_last()) + ls.last() + seq!['\n']
    }
}

proof fn lemma_first_newline(s: Seq<char>, k: int)
    requires
        0 <= k <= s.len(),
        k < s.len() ==> s[k] == '\n',
        forall|j: int| 0 <= j < k ==> s[j] != '\n',
    ensures
        first_newline(s) == k,
    decreases k,
{
    if k > 0 {
        lemma_first_newline(s.drop_first(), k - 1);
    }
}

proof fn lemma_first_newline_bounds(s: Seq<char>)
    ensures
        first_newline(s) <= s.len(),
        forall|j: int| 0 <= j < first_newline(s) ==> s[j] != '\n',
        first_newline(s) < s.len() ==> s[first_newline(s) as int] == '\n',
    decreases s.len(),
{
    if s.len() > 0 && s[0] != '\n' {
        lemma_first_newline_bounds(s.drop_first());
        assert forall|j: int| 0 <= j < first_newline(s) implies s[j] != '\n' by {
            if j > 0 {
                assert(s[j] == s.drop_first()[j - 1]);
            }
        }
    }
}

/// No line feed occurs in `l`.
pub open spec fn no_newline(l: Seq<char>) -> bool {
    forall|j: int| 0 <= j < l.len() ==> l[j] != '\n'
}

/// `l` ends with a carriage return.
pub open spec fn ends_with_cr(l: Seq<char>) -> bool {
    l.len() > 0 && l.last() == '\r'
}

/// No line of a text holds a line feed.
pub proof fn lemma_lines_have_no_newline(s: Seq<char>)
    ensures
        forall|i: int| 0 <= i < lines_of(s).len() ==> no_newline(#[trigger] lines_of(s)[i]),
    decreases s.len(),
{
    if s.len() > 0 {
        let n = first_newline(s);
        lemma_first_newline_bounds(s);
        if n < s.len() {
            lemma_lines_have_no_newline(s.skip((n + 1) as int));
            let rest = lines_of(s.skip((n + 1) as int));
            assert forall|i: int| 0 <= i < lines_of(s).len() implies no_newline(#[trigger] lines_of(s)[i]) by {
                if i > 0 {
                    assert(lines_of(s)[i] == rest[i - 1]);
                }
            }
        }
    }
}

/// The lines of some lines joined are those lines again, when none of them
/// holds a line feed or ends with a carriage return.
pub proof fn lemma_lines_of_join(ys: Seq<Seq<char>>)
    requires
        forall|i: int| 0 <= i < ys.len() ==> no_newline(#[trigger] ys[i]) && !ends_with_cr(ys[i]),
    ensures
        lines_of(join_lines(ys)) == ys,
    decreases ys.len(),
{
    if ys.len() > 0 {
        let y0 = ys[0];
        let rest = ys.skip(1);
        lemma_lines_of_join(rest);
        assert(ys =~= seq![y0] + rest);
        lemma_join_append(seq![y0], rest);
        lemma_join_one(y0);
        let s = join_lines(ys);
        assert(s =~= y0 + seq!['\n'] + join_lines(rest));
        assert(no_newline(ys[0]));
        lemma_first_newline(s, y0.len() as int);
        assert(s.take(y0.len() as int) =~= y0);
        assert(s.skip((y0.len() + 1) as int) =~= join_lines(rest));
        assert(lines_of(s) =~= seq![y0] + rest);
    }
}

/// Joining the lines of a text gives the text back when it holds no
/// carriage return and is empty or ends with a line feed.
pub proof fn lemma_join_lines_of(doc: Seq<char>)
    requires
        forall|i: int| 0 <= i < doc.len() ==> doc[i] != '\r',
        doc.len() == 0 || doc.last() == '\n',
    ensures
        join_lines(lines_of(doc)) == doc,
    decreases doc.len(),
{
    if doc.len() > 0 {
        let n = first_newline(doc);
        lemma_first_newline_bounds(doc);
        assert(n < doc.len());
        let head = doc.take(n as int);
        let tail = doc.skip((n + 1) as int);
        assert(tail.len() == 0 || tail.last() == doc.last());
        lemma_join_lines_of(tail);
        assert(head.len() == 0 || head.last() == doc[n - 1]);
        assert(strip_cr(head) == head);
        lemma_join_append(seq![head], lines_of(tail));
        lemma_join_one(head);
        assert(doc =~= head + seq!['\n'] + tail);
    }
}

/// One line joined is that line and a line feed.
pub proof fn lemma_join_one(l: Seq<char>)
    ensures
        join_lines(seq![l]) == l + seq!['\n'],
{
    assert(seq![l].drop_last() =~= Seq::<Seq<char>>::empty());
    assert(join_lines(Seq::<Seq<char>>::empty()) =~= Seq::<char>::empty());
    assert(join_lines(seq![l]) =~= l + seq!['\n']);
}

/// Joining two runs of lines gives the two joined texts one after the other.
pub proof fn lemma_join_append(a: Seq<Seq<char>>, b: Seq<Seq<char>>)
    ensures
        join_lines(a + b) == join_lines(a) + join_lines(b),
    decreases b.len(),
{
    if b.len() == 0 {
        assert(a + b =~= a);
        assert(join_lines(a) + join_lines(b) =~= join_lines(a));
    } else {
        lemma_join_append(a, b.drop_last());
        assert((a + b).drop_last() =~= a + b.drop_last());
        assert((a + b).last() == b.last());
        assert(join_lines(a + b) =~= join_lines(a) + join_lines(b));
    }
}

/// The characters of a `str`, in order.
pub fn chars_of(s: &str) -> (r: Vec<char>)
    ensures
        r@ == s@,
{
    let mut r: Vec<char> = Vec::new();
    for c in it: s.chars()
        invariant
            r@ == it.seq().take(it.index() as int),
    {
        r.push(c);
    }
    r
}

/// The character sequences held by a vector of lines.
pub open spec fn line_views(ls: Seq<Vec<char>>) -> Seq<Seq<char>> {
    ls.map_values(|l: Vec<char>| l@)
}

/// A copy of `v[lo..hi]`.
pub(crate) fn copy_range(v: &Vec<char>, lo: usize, hi: usize) -> (r: Vec<char>)
    requires
        lo <= hi <= v@.len(),
    ensures
        r@ == v@.subrange(lo as int, hi as int),
{
    let mut r: Vec<char> = Vec::new();
    let mut i: usize = lo;
    while i < hi
        invariant
            lo <= i <= hi <= v@.len(),
            r@ == v@.subrange(lo as int, i as int),
        decreases hi - i,
    {
        r.push(v[i]);
        i = i + 1;
        assert(r@ =~= v@.subrange(lo as int, i as int));
    }
    r
}

/// The line `v[lo..hi]`, without a carriage return at its end.
fn copy_line(v: &Vec<char>, lo: usize, hi: usize) -> (r: Vec<char>)
    requires
        lo <= hi <= v@.len(),
    ensures
        r@ == strip_cr(v@.subrange(lo as int, hi as int)),
{
    if lo < hi && v[hi - 1] == '\r' {
        let r = copy_range(v, lo, hi - 1);
        assert(r@ =~= strip_cr(v@.subrange(lo as int, hi as int)));
        r
    } else {
        copy_range(v, lo, hi)
    }
}

/// The lines of `text`, each as its own vector of characters.
pub fn split_lines(text: &Vec<char>) -> (r: Vec<Vec<char>>)
    ensures
        line_views(r@) == lines_of(text@),
{
    let n: usize = text.len();
    let mut r: Vec<Vec<char>> = Vec::new();
    let mut start: usize = 0;
    let mut i: usize = 0;
    assert(text@.skip(0) =~= text@);
    assert(line_views(r@) + lines_of(text@) =~= lines_of(text@));
    while i < n
        invariant
            n == text@.len(),
            start <= i <= n,
            forall|j: int| start <= j < i ==> text@[j] != '\n',
            lines_of(text@) == line_views(r@) + lines_of(text@.skip(start as int)),
        decreases n - i,
    {
        if text[i] == '\n' {
            let line = copy_line(text, start, i);
            proof {
                let t = text@.skip(start as int);
                lemma_first_newline(t, i - start);
                assert(t.take(i - start) =~= text@.subrange(start as int, i as int));
                assert(t.skip(i - start + 1) =~= text@.skip(i + 1));
                assert(line_views(r@).push(line@) + lines_of(text@.skip(i + 1))
                    =~= line_views(r@) + lines_of(t));
            }
            let ghost prev = r@;
            r.push(line);
            assert(line_views(r@) =~= line_views(prev).push(line@));
            start = i + 1;
        }
        i = i + 1;
    }
    proof {
        let t = text@.skip(start as int);
        if t.len() > 0 {
            lemma_first_newline(t, t.len() as int);
        }
    }
    if start < n {
        let line = copy_range(text, start, n);
        proof {
            assert(line@ =~= text@.skip(start as int));
            assert(line_views(r@).push(line@) =~= line_views(r@) + lines_of(text@.skip(start as int)));
        }
        let ghost prev = r@;
        r.push(line);
        assert(line_views(r@) =~= line_views(prev).push(line@));
    } else {
        assert(line_views(r@) + lines_of(text@.skip(start as int)) =~= line_views(r@));
    }
    r
}

/// Appends the characters of `more` to `out`.
pub(crate) fn append_chars(out: &mut Vec<char>, more: &Vec<char>)
    ensures
        final(out)@ == old(out)@ + more@,
{
    let mut i: usize = 0;
    while i < more.len()
        invariant
            i <= more@.len(),
            out@ == old(out)@ + more@.take(i as int),
        decreases more@.len() - i,
    {
        out.push(more[i]);
        i = i + 1;
        assert(out@ =~= old(out)@ + more@.take(i as int));
    }
    assert(more@.take(more@.len() as int) =~= more@);
}

/// Relies on `String`'s `FromIterator<&char>`, which appends the
/// characters in the order the iterator yields them.
#[verifier::external_body]
pub(crate) fn string_of(cs: &Vec<char>) -> (r: String)
    ensures
        r@ == cs@,
{
    cs.iter().collect()
}

} // verus!
