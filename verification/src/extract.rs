//! Link extraction: scan HTML for `http://` or `https://` followed by at
//! least one host character (ASCII letter, digit, `_`, `-` or `.`), left to
//! right, matches non-overlapping, duplicates and order preserved. A `/`
//! after the host is not part of the token, so only scheme and host are
//! captured.

use vstd::prelude::*;

verus! {

/// A fetched page: its HTML and how long the fetch took.
pub struct PageData {
    pub html: String,
    pub elapsed_ms: u64,
}

/// The characters a host token is made of.
pub open spec fn is_word_char(c: char) -> bool {
    ('a' <= c && c <= 'z') || ('A' <= c && c <= 'Z') || ('0' <= c && c <= '9') || c == '_' || c
        == '-' || c == '.'
}

pub open spec fn lower_https() -> Seq<char> {
    seq!['h', 't', 't', 'p', 's', ':', '/', '/']
}

pub open spec fn lower_http() -> Seq<char> {
    seq!['h', 't', 't', 'p', ':', '/', '/']
}

/// The length of the scheme written at position `i`, if one is: `https://`
/// counts eight characters, else `http://` seven.
pub open spec fn scheme_len_at(s: Seq<char>, i: int) -> Option<int> {
    if lower_https().is_prefix_of(s.skip(i)) {
        Some(8)
    } else if lower_http().is_prefix_of(s.skip(i)) {
        Some(7)
    } else {
        None
    }
}

/// Where the run of host characters beginning at `j` ends.
pub open spec fn word_run_end(s: Seq<char>, j: int) -> int
    decreases s.len() - j,
{
    if j < 0 || j >= s.len() {
        j
    } else if is_word_char(s[j]) {
        word_run_end(s, j + 1)
    } else {
        j
    }
}

pub proof fn lemma_word_run_end_bounds(s: Seq<char>, j: int)
    requires
        0 <= j <= s.len(),
    ensures
        j <= word_run_end(s, j) <= s.len(),
    decreases s.len() - j,
{
    if j < s.len() && is_word_char(s[j]) {
        lemma_word_run_end_bounds(s, j + 1);
    }
}

/// Where the token starting at `i` ends: a scheme followed by at least one
/// host character, extending as far as host characters go.
pub open spec fn match_end_at(s: Seq<char>, i: int) -> Option<int> {
    match scheme_len_at(s, i) {
        Some(l) => {
            let e = word_run_end(s, i + l);
            if e > i + l {
                Some(e)
            } else {
                None
            }
        },
        None => None,
    }
}

pub proof fn lemma_match_end_bounds(s: Seq<char>, i: int)
    requires
        0 <= i <= s.len(),
        match_end_at(s, i) is Some,
    ensures
        i < match_end_at(s, i)->0 <= s.len(),
{
    let l = scheme_len_at(s, i)->0;
    assert(l == 7 || l == 8);
    assert(i + l <= s.len()) by {
        if l == 8 {
            assert(lower_https().is_prefix_of(s.skip(i)));
            assert(s.skip(i).len() >= 8);
        } else {
            assert(lower_http().is_prefix_of(s.skip(i)));
            assert(s.skip(i).len() >= 7);
        }
    }
    lemma_word_run_end_bounds(s, i + l);
}

/// The tokens found scanning from position `i` on.
pub open spec fn extract_from(s: Seq<char>, i: int) -> Seq<Seq<char>>
    decreases s.len() - i,
    when 0 <= i
    via extract_from_decreases
{
    if i >= s.len() {
        Seq::empty()
    } else {
        match match_end_at(s, i) {
            Some(e) => seq![s.subrange(i, e)] + extract_from(s, e),
            None => extract_from(s, i + 1),
        }
    }
}

#[via_fn]
proof fn extract_from_decreases(s: Seq<char>, i: int) {
    if 0 <= i < s.len() {
        if match_end_at(s, i) is Some {
            lemma_match_end_bounds(s, i);
        }
    }
}

/// All tokens of the fixed pattern in the text, in source order, duplicates
/// preserved.
pub open spec fn extract_spec(s: Seq<char>) -> Seq<Seq<char>> {
    extract_from(s, 0)
}

/// A host character, as `is_word_char` says.
pub fn word_char(c: char) -> (r: bool)
    ensures
        r == is_word_char(c),
{
    (c >= 'a' && c <= 'z') || (c >= 'A' && c <= 'Z') || (c >= '0' && c <= '9') || c == '_' || c
        == '-' || c == '.'
}

/// The literal `p` occurs in `s` at position `i`.
fn occurs_at(s: &str, n: usize, i: usize, p: &str) -> (r: bool)
    requires
        i <= n == s@.len(),
    ensures
        r == p@.is_prefix_of(s@.skip(i as int)),
{
    let pn = p.unicode_len();
    if n - i < pn {
        proof {
            assert(s@.skip(i as int).len() < p@.len());
        }
        return false;
    }
    let mut j: usize = 0;
    while j < pn
        invariant
            j <= pn,
            pn == p@.len(),
            i + pn <= n,
            n == s@.len(),
            forall|k: int| 0 <= k < j ==> s@[i + k] == p@[k],
        decreases pn - j,
    {
        if s.get_char(i + j) != p.get_char(j) {
            proof {
                assert(!p@.is_prefix_of(s@.skip(i as int))) by {
                    assert(s@.skip(i as int).subrange(0, pn as int)[j as int] == s@[i + j]);
                }
            }
            return false;
        }
        j += 1;
    }
    proof {
        assert(p@ =~= s@.skip(i as int).subrange(0, pn as int));
    }
    true
}

/// Extract every `http://host` or `https://host` token from the text, in
/// source order, duplicates preserved. The host part is the maximal run of
/// letters, digits, `_`, `-` and `.` after the scheme; a path after the host
/// is not captured.
pub fn extract_urls(html: &str) -> (r: Vec<String>)
    ensures
        r.deep_view() == extract_spec(html@),
{
    let n = html.unicode_len();
    let mut out: Vec<String> = Vec::new();
    let mut i: usize = 0;
    proof {
        reveal_strlit("https://");
        reveal_strlit("http://");
        assert("https://"@ =~= lower_https());
        assert("http://"@ =~= lower_http());
    }
    while i < n
        invariant
            i <= n,
            n == html@.len(),
            extract_spec(html@) == out.deep_view() + extract_from(html@, i as int),
        decreases n - i,
    {
        proof {
            reveal_strlit("https://");
            reveal_strlit("http://");
            assert("https://"@ =~= lower_https());
            assert("http://"@ =~= lower_http());
        }
        let ghost pre_tokens = out.deep_view();
        let scheme_len: usize = if occurs_at(html, n, i, "https://") {
            8
        } else if occurs_at(html, n, i, "http://") {
            7
        } else {
            0
        };
        if scheme_len > 0 {
            proof {
                assert(scheme_len_at(html@, i as int) == Some(scheme_len as int));
            }
            let start = i + scheme_len;
            let mut e: usize = start;
            while e < n && word_char(html.get_char(e))
                invariant
                    start <= e <= n,
                    n == html@.len(),
                    word_run_end(html@, start as int) == word_run_end(html@, e as int),
                decreases n - e,
            {
                e += 1;
            }
            proof {
                assert(word_run_end(html@, e as int) == e as int);
            }
            if e > start {
                let tok = html.substring_char(i, e);
                out.push(String::from_str(tok));
                proof {
                    assert(match_end_at(html@, i as int) == Some(e as int));
                    assert(extract_from(html@, i as int) == seq![
                        html@.subrange(i as int, e as int),
                    ] + extract_from(html@, e as int));
                    assert(out.deep_view() =~= pre_tokens.push(tok@));
                    assert(out.deep_view() + extract_from(html@, e as int) =~= pre_tokens
                        + extract_from(html@, i as int));
                }
                i = e;
            } else {
                proof {
                    assert(match_end_at(html@, i as int) is None);
                    assert(extract_from(html@, i as int) == extract_from(html@, i + 1 as int));
                }
                i += 1;
            }
        } else {
            proof {
                assert(scheme_len_at(html@, i as int) is None);
                assert(match_end_at(html@, i as int) is None);
                assert(extract_from(html@, i as int) == extract_from(html@, i + 1 as int));
            }
            i += 1;
        }
    }
    proof {
        assert(extract_from(html@, n as int) =~= Seq::<Seq<char>>::empty());
        assert(out.deep_view() =~= out.deep_view() + extract_from(html@, n as int));
    }
    out
}

/// No character of the separator can take part in a token: it is not a host
/// character, nor `:` nor `/`.
pub open spec fn separator_ok(sep: Seq<char>) -> bool {
    &&& sep.len() > 0
    &&& forall|k: int|
        0 <= k < sep.len() ==> !is_word_char(#[trigger] sep[k]) && sep[k] != ':' && sep[k] != '/'
}

/// Every character of either scheme literal is a host character, `:` or `/`.
proof fn lemma_scheme_chars(k: int)
    requires
        0 <= k < 8,
    ensures
        is_word_char(lower_https()[k]) || lower_https()[k] == ':' || lower_https()[k] == '/',
        k < 7 ==> is_word_char(lower_http()[k]) || lower_http()[k] == ':' || lower_http()[k] == '/',
{
}

/// In `a + sep + b`, a run of host characters that starts inside `a` ends
/// inside `a`: the first separator character stops it.
proof fn lemma_run_in_left(a: Seq<char>, sep: Seq<char>, b: Seq<char>, j: int)
    requires
        separator_ok(sep),
        0 <= j <= a.len(),
    ensures
        word_run_end(a + sep + b, j) == word_run_end(a, j),
        word_run_end(a, j) <= a.len(),
    decreases a.len() - j,
{
    let s = a + sep + b;
    let na = a.len() as int;
    if j == na {
        assert(s[na] == sep[0]);
        assert(!is_word_char(s[na]));
    } else {
        assert(s[j] == a[j]);
        if is_word_char(a[j]) {
            lemma_run_in_left(a, sep, b, j + 1);
        }
    }
}

/// In `a + sep + b`, a scheme written at a position inside `a` lies wholly
/// inside `a`, and conversely: separator characters can spell no part of it.
proof fn lemma_scheme_in_left(a: Seq<char>, sep: Seq<char>, b: Seq<char>, i: int)
    requires
        separator_ok(sep),
        0 <= i < a.len(),
    ensures
        scheme_len_at(a + sep + b, i) == scheme_len_at(a, i),
        scheme_len_at(a, i) is Some ==> i + scheme_len_at(a, i)->0 <= a.len(),
{
    assert forall|k: int| 0 <= k < 8 implies is_word_char(#[trigger] lower_https()[k])
        || lower_https()[k] == ':' || lower_https()[k] == '/' by {
        lemma_scheme_chars(k);
    }
    assert forall|k: int| 0 <= k < 7 implies is_word_char(#[trigger] lower_http()[k])
        || lower_http()[k] == ':' || lower_http()[k] == '/' by {
        lemma_scheme_chars(k);
    }
    lemma_prefix_in_left(a, sep, b, i, lower_https());
    lemma_prefix_in_left(a, sep, b, i, lower_http());
}

/// A literal of token characters written at a position inside `a` lies
/// wholly inside `a`: it cannot reach the separator.
proof fn lemma_prefix_in_left(a: Seq<char>, sep: Seq<char>, b: Seq<char>, i: int, p: Seq<char>)
    requires
        separator_ok(sep),
        0 <= i < a.len(),
        forall|k: int|
            0 <= k < p.len() ==> is_word_char(#[trigger] p[k]) || p[k] == ':' || p[k] == '/',
    ensures
        p.is_prefix_of((a + sep + b).skip(i)) == p.is_prefix_of(a.skip(i)),
        p.is_prefix_of(a.skip(i)) ==> i + p.len() <= a.len(),
{
    let s = a + sep + b;
    let na = a.len() as int;
    let l = p.len() as int;
    if p.is_prefix_of(s.skip(i)) {
        if i + l > na {
            let k = na - i;
            assert(0 <= k < l);
            assert(s.skip(i)[k] == s[na]);
            assert(s[na] == sep[0]);
            assert(s.skip(i).subrange(0, l)[k] == p[k]);
            assert(sep[0] == p[k]);
            assert(false);
        }
        assert(p =~= a.skip(i).subrange(0, l)) by {
            assert forall|k: int| 0 <= k < l implies a.skip(i).subrange(0, l)[k] == p[k] by {
                assert(a.skip(i)[k] == a[i + k]);
                assert(s.skip(i)[k] == s[i + k]);
                assert(s[i + k] == a[i + k]);
                assert(s.skip(i).subrange(0, l)[k] == p[k]);
            }
        }
    } else if p.is_prefix_of(a.skip(i)) {
        assert(i + l <= na);
        assert(p =~= s.skip(i).subrange(0, l)) by {
            assert forall|k: int| 0 <= k < l implies s.skip(i).subrange(0, l)[k] == p[k] by {
                assert(s.skip(i)[k] == s[i + k]);
                assert(s[i + k] == a[i + k]);
                assert(a.skip(i)[k] == a[i + k]);
                assert(a.skip(i).subrange(0, l)[k] == p[k]);
            }
        }
        assert(false);
    }
    if p.is_prefix_of(a.skip(i)) {
        assert(a.skip(i).len() >= l);
    }
}

/// Scanning at or past the separator sees exactly what scanning `b` sees,
/// shifted by the offset.
proof fn lemma_extract_shift(a: Seq<char>, sep: Seq<char>, b: Seq<char>, i: int)
    requires
        a.len() + sep.len() <= i <= (a + sep + b).len(),
    ensures
        extract_from(a + sep + b, i) == extract_from(b, i - a.len() - sep.len()),
    decreases (a + sep + b).len() - i,
{
    let s = a + sep + b;
    let off = a.len() + sep.len();
    let j = i - off;
    assert(s.skip(i) =~= b.skip(j));
    assert(scheme_len_at(s, i) == scheme_len_at(b, j));
    if i < s.len() {
        lemma_run_shift(a, sep, b, i);
        match scheme_len_at(s, i) {
            Some(l) => {
                lemma_word_run_end_bounds(b, j + l);
                if i + l <= s.len() {
                    lemma_run_shift(a, sep, b, i + l);
                }
                let e = word_run_end(s, i + l);
                if e > i + l {
                    lemma_match_end_bounds(s, i);
                    lemma_extract_shift(a, sep, b, e);
                    assert(s.subrange(i, e) =~= b.subrange(j, e - off));
                } else {
                    lemma_extract_shift(a, sep, b, i + 1);
                }
            },
            None => {
                lemma_extract_shift(a, sep, b, i + 1);
            },
        }
    }
}

/// Shift of a host-character run into the right-hand text.
proof fn lemma_run_shift(a: Seq<char>, sep: Seq<char>, b: Seq<char>, j: int)
    requires
        a.len() + sep.len() <= j <= (a + sep + b).len(),
    ensures
        word_run_end(a + sep + b, j) == word_run_end(b, j - a.len() - sep.len()) + a.len()
            + sep.len(),
    decreases (a + sep + b).len() - j,
{
    let s = a + sep + b;
    let off = a.len() + sep.len();
    if j < s.len() {
        assert(s[j] == b[j - off]);
        if is_word_char(s[j]) {
            lemma_run_shift(a, sep, b, j + 1);
        }
    }
}

/// Scanning from inside the separator finds nothing until `b` begins.
proof fn lemma_extract_sep(a: Seq<char>, sep: Seq<char>, b: Seq<char>, i: int)
    requires
        separator_ok(sep),
        a.len() <= i <= a.len() + sep.len(),
    ensures
        extract_from(a + sep + b, i) == extract_spec(b),
    decreases a.len() + sep.len() - i,
{
    let s = a + sep + b;
    let na = a.len() as int;
    let off = na + sep.len();
    if i == off {
        lemma_extract_shift(a, sep, b, i);
    } else {
        assert(s[i] == sep[i - na]);
        assert(!is_word_char(s[i]));
        assert(scheme_len_at(s, i) is None) by {
            if lower_https().is_prefix_of(s.skip(i)) {
                assert(s.skip(i).subrange(0, 8)[0] == lower_https()[0]);
                assert(s[i] == 'h');
            }
            if lower_http().is_prefix_of(s.skip(i)) {
                assert(s.skip(i).subrange(0, 7)[0] == lower_http()[0]);
                assert(s[i] == 'h');
            }
        }
        lemma_extract_sep(a, sep, b, i + 1);
    }
}

/// Scanning from inside `a` finds `a`'s remaining tokens, then `b`'s.
proof fn lemma_extract_left(a: Seq<char>, sep: Seq<char>, b: Seq<char>, i: int)
    requires
        separator_ok(sep),
        0 <= i <= a.len(),
    ensures
        extract_from(a + sep + b, i) == extract_from(a, i) + extract_spec(b),
    decreases a.len() - i,
{
    let s = a + sep + b;
    let na = a.len() as int;
    if i == na {
        lemma_extract_sep(a, sep, b, i);
        assert(extract_from(a, i) + extract_spec(b) =~= extract_spec(b));
    } else {
        lemma_scheme_in_left(a, sep, b, i);
        match scheme_len_at(a, i) {
            Some(l) => {
                lemma_run_in_left(a, sep, b, i + l);
                let e = word_run_end(a, i + l);
                assert(match_end_at(s, i) == match_end_at(a, i));
                if e > i + l {
                    assert(s.subrange(i, e) =~= a.subrange(i, e)) by {
                        assert forall|k: int| i <= k < e implies s[k] == a[k] by {}
                    }
                    lemma_word_run_end_bounds(a, i + l);
                    lemma_extract_left(a, sep, b, e);
                    assert(seq![s.subrange(i, e)] + (extract_from(a, e) + extract_spec(b)) =~= (
                    seq![a.subrange(i, e)] + extract_from(a, e)) + extract_spec(b));
                } else {
                    lemma_extract_left(a, sep, b, i + 1);
                }
            },
            None => {
                lemma_extract_left(a, sep, b, i + 1);
            },
        }
    }
}

/// Extraction is preserved under concatenation: when the separator holds no
/// character a token could use, the tokens of `a + sep + b` are exactly the
/// tokens of `a` followed by the tokens of `b`.
pub proof fn lemma_extract_concat(a: Seq<char>, sep: Seq<char>, b: Seq<char>)
    requires
        separator_ok(sep),
    ensures
        extract_spec(a + sep + b) == extract_spec(a) + extract_spec(b),
{
    lemma_extract_left(a, sep, b, 0);
}

} // verus!
