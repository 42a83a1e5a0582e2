//! Where the downloaded results page lies on disk, derived from its URL.
use vstd::prelude::*;

use crate::text::{append_chars, chars_of, copy_range, matches_at, occurs_at, string_of};

verus! {

/// Whether `c` has the Unicode `White_Space` property.
pub uninterp spec fn white_space(c: char) -> bool;

/// Relies on `char::is_whitespace`, which tells whether a character has
/// the Unicode `White_Space` property.
#[verifier::external_body]
fn is_space(c: char) -> (r: bool)
    ensures
        r == white_space(c),
{
    c.is_whitespace()
}

/// `s` without the white space at its start.
pub open spec fn trim_start_ws(s: Seq<char>) -> Seq<char>
    decreases s.len(),
{
    if s.len() > 0 && white_space(s[0]) {
        trim_start_ws(s.drop_first())
    } else {
        s
    }
}

/// `s` without the white space at its end.
pub open spec fn trim_end_ws(s: Seq<char>) -> Seq<char>
    decreases s.len(),
{
    if s.len() > 0 && white_space(s.last()) {
        trim_end_ws(s.drop_last())
    } else {
        s
    }
}

/// The host whose directory a recursive download creates.
pub open spec fn host() -> Seq<char> {
    seq!['m', 'o', 's', 's', '.', 's', 't', 'a', 'n', 'f', 'o', 'r', 'd', '.', 'e', 'd', 'u']
}

/// The secure web scheme, with its separator.
pub open spec fn https_prefix() -> Seq<char> {
    seq!['h', 't', 't', 'p', 's', ':', '/', '/']
}

/// The plain web scheme, with its separator.
pub open spec fn http_prefix() -> Seq<char> {
    seq!['h', 't', 't', 'p', ':', '/', '/']
}

/// `s` without white space at either end.
pub open spec fn trim_ws(s: Seq<char>) -> Seq<char> {
    trim_end_ws(trim_start_ws(s))
}

/// `t` without an `https://` or `http://` scheme in front.
pub open spec fn scheme_stripped(t: Seq<char>) -> Seq<char> {
    if occurs_at(t, https_prefix(), 0) {
        t.skip(8)
    } else if occurs_at(t, http_prefix(), 0) {
        t.skip(7)
    } else {
        t
    }
}

/// A URL without white space around it and without an `https://` or
/// `http://` scheme in front.
pub open spec fn local_path_of(url: Seq<char>) -> Seq<char> {
    scheme_stripped(trim_ws(url))
}

/// `s` with every occurrence of the host name, read from left to right
/// without overlap, replaced by `to`.
pub open spec fn rename_host(s: Seq<char>, to: Seq<char>) -> Seq<char>
    decreases s.len(),
{
    if s.len() == 0 {
        s
    } else if occurs_at(s, host(), 0) {
        to + rename_host(s.skip(host().len() as int), to)
    } else {
        seq![s[0]] + rename_host(s.drop_first(), to)
    }
}

/// The HTML file of a downloaded page: one trailing `/` dropped, `.html`
/// appended.
pub open spec fn html_file_of(path: Seq<char>) -> Seq<char> {
    let base = if path.len() > 0 && path.last() == '/' {
        path.drop_last()
    } else {
        path
    };
    base + seq!['.', 'h', 't', 'm', 'l']
}

proof fn lemma_trim_start_skip(s: Seq<char>, i: int)
    requires
        0 <= i <= s.len(),
        forall|j: int| 0 <= j < i ==> white_space(s[j]),
    ensures
        trim_start_ws(s) == trim_start_ws(s.skip(i)),
    decreases i,
{
    if i > 0 {
        assert(s.drop_first().skip(i - 1) =~= s.skip(i));
        lemma_trim_start_skip(s.drop_first(), i - 1);
    } else {
        assert(s.skip(0) =~= s);
    }
}

proof fn lemma_trim_end_take(s: Seq<char>, i: int)
    requires
        0 <= i <= s.len(),
        forall|j: int| i <= j < s.len() ==> white_space(s[j]),
    ensures
        trim_end_ws(s) == trim_end_ws(s.take(i)),
    decreases s.len() - i,
{
    if i < s.len() {
        assert(s.drop_last().take(i) =~= s.take(i));
        lemma_trim_end_take(s.drop_last(), i);
    } else {
        assert(s.take(i) =~= s);
    }
}

/// `s` without the white space at either end.
fn trim_text_ws(s: &str) -> (r: String)
    ensures
        r@ == trim_ws(s@),
{
    let s = chars_of(s);
    let n: usize = s.len();
    let mut lo: usize = 0;
    while lo < n && is_space(s[lo])
        invariant
            n == s@.len(),
            lo <= n,
            forall|j: int| 0 <= j < lo ==> white_space(s@[j]),
        decreases n - lo,
    {
        lo = lo + 1;
    }
    let mut hi: usize = n;
    while hi > lo && is_space(s[hi - 1])
        invariant
            n == s@.len(),
            lo <= hi <= n,
            forall|j: int| hi <= j < n ==> white_space(s@[j]),
        decreases hi,
    {
        hi = hi - 1;
    }
    let ghost front = s@.skip(lo as int);
    proof {
        lemma_trim_start_skip(s@, lo as int);
        assert(lo == n || !white_space(s@[lo as int]));
        assert(trim_start_ws(front) == front);
        lemma_trim_end_take(front, hi - lo);
        assert(front.take(hi - lo) =~= s@.subrange(lo as int, hi as int));
        assert(hi == lo || !white_space(s@[hi - 1]));
    }
    let r = copy_range(&s, lo, hi);
    string_of(&r)
}

/// `t` without an `https://` or `http://` scheme in front.
pub fn strip_scheme(t: &str) -> (r: String)
    ensures
        r@ == scheme_stripped(t@),
{
    let s = chars_of(t);
    let n: usize = s.len();
    let https: Vec<char> = vec!['h', 't', 't', 'p', 's', ':', '/', '/'];
    let http: Vec<char> = vec!['h', 't', 't', 'p', ':', '/', '/'];
    assert(https@ =~= https_prefix());
    assert(http@ =~= http_prefix());
    let mut start: usize = 0;
    if n >= 8 && matches_at(&s, &https, 0) {
        start = 8;
    } else if n >= 7 && matches_at(&s, &http, 0) {
        start = 7;
    }
    let r = copy_range(&s, start, n);
    assert(r@ =~= scheme_stripped(t@));
    string_of(&r)
}

/// The URL as a path on disk: white space around it and an `https://` or
/// `http://` scheme in front taken off.
pub fn local_path(url: &str) -> (r: String)
    ensures
        r@ == local_path_of(url@),
{
    let t = trim_text_ws(url);
    strip_scheme(t.as_str())
}

/// The path with every occurrence of the host name replaced by `folder`,
/// as after the download directory has been renamed to `folder`.
pub fn rename_root(path: &str, folder: &str) -> (r: String)
    ensures
        r@ == rename_host(path@, folder@),
{
    let s = chars_of(path);
    let to = chars_of(folder);
    let h: Vec<char> = vec!['m', 'o', 's', 's', '.', 's', 't', 'a', 'n', 'f', 'o', 'r', 'd', '.', 'e', 'd', 'u'];
    assert(h@ =~= host());
    let n: usize = s.len();
    let mut r: Vec<char> = Vec::new();
    let mut i: usize = 0;
    assert(s@.skip(0) =~= s@);
    while i < n
        invariant
            n == s@.len(),
            i <= n,
            h@ == host(),
            to@ == folder@,
            rename_host(path@, folder@) == r@ + rename_host(s@.skip(i as int), folder@),
        decreases n - i,
    {
        let ghost rest = s@.skip(i as int);
        if n - i >= 17 && matches_at(&s, &h, i) {
            proof {
                assert(rest.subrange(0, 17) =~= s@.subrange(i as int, i + 17));
                assert(rest.skip(17) =~= s@.skip(i + 17));
                assert(r@ + to@ + rename_host(s@.skip(i + 17), folder@)
                    =~= r@ + rename_host(rest, folder@));
            }
            append_chars(&mut r, &to);
            i = i + 17;
        } else {
            proof {
                if n - i >= 17 {
                    assert(rest.subrange(0, 17) =~= s@.subrange(i as int, i + 17));
                }
                assert(rest.drop_first() =~= s@.skip(i + 1));
            }
            let ghost before = r@;
            r.push(s[i]);
            assert(r@ =~= before + seq![rest[0]]);
            i = i + 1;
        }
    }
    string_of(&r)
}

/// The HTML file of a downloaded page: one trailing `/` of `path` dropped
/// and `.html` appended.
pub fn html_file(path: &str) -> (r: String)
    ensures
        r@ == html_file_of(path@),
{
    let mut s = chars_of(path);
    if s.len() > 0 && s[s.len() - 1] == '/' {
        s.pop();
    }
    let ext: Vec<char> = vec!['.', 'h', 't', 'm', 'l'];
    append_chars(&mut s, &ext);
    assert(s@ =~= html_file_of(path@));
    string_of(&s)
}

} // verus!
