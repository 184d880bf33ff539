//! URL normalization: map an input URL to a canonical upper-case
//! `(name, protocol)` pair. The scheme prefix (`HTTPS://` or `HTTP://`,
//! defaulting to `HTTP://`) and a single leading `WWW.` are stripped from
//! the upper-cased input.

use vstd::prelude::*;

use crate::text::{starts_with_lit, to_upper_string, upper, upper_char};

verus! {

pub open spec fn https_prefix() -> Seq<char> {
    seq!['H', 'T', 'T', 'P', 'S', ':', '/', '/']
}

pub open spec fn http_prefix() -> Seq<char> {
    seq!['H', 'T', 'T', 'P', ':', '/', '/']
}

pub open spec fn www_prefix() -> Seq<char> {
    seq!['W', 'W', 'W', '.']
}

/// Strip a single leading `WWW.`, if present.
pub open spec fn strip_www(s: Seq<char>) -> Seq<char> {
    if www_prefix().is_prefix_of(s) {
        s.skip(4)
    } else {
        s
    }
}

/// The normalized form of a URL: upper-case it, strip the scheme (defaulting
/// to `HTTP://`), strip one leading `WWW.`; the result is the pair
/// `(name, protocol)`.
pub open spec fn normalize_spec(url: Seq<char>) -> (Seq<char>, Seq<char>) {
    let u = upper(url);
    if https_prefix().is_prefix_of(u) {
        (strip_www(u.skip(8)), https_prefix())
    } else if http_prefix().is_prefix_of(u) {
        (strip_www(u.skip(7)), http_prefix())
    } else {
        (strip_www(u), http_prefix())
    }
}

/// Strip one leading `WWW.` from an upper-cased host.
fn strip_www_exec(s: &str) -> (r: String)
    ensures
        r@ == strip_www(s@),
{
    proof {
        reveal_strlit("WWW.");
        assert("WWW."@ =~= www_prefix());
    }
    if starts_with_lit(s, "WWW.") {
        let n = s.unicode_len();
        let rest = s.substring_char(4, n);
        String::from_str(rest)
    } else {
        String::from_str(s)
    }
}

/// Normalize a URL: upper-case it, strip the scheme prefix (`HTTPS://` or
/// `HTTP://`, defaulting to `HTTP://` when absent) and one leading `WWW.`.
/// Returns `(name, protocol)`.
pub fn normalize_url(url: &str) -> (r: (String, String))
    ensures
        r.0@ == normalize_spec(url@).0,
        r.1@ == normalize_spec(url@).1,
{
    let up = to_upper_string(url);
    proof {
        reveal_strlit("HTTPS://");
        reveal_strlit("HTTP://");
        assert("HTTPS://"@ =~= https_prefix());
        assert("HTTP://"@ =~= http_prefix());
    }
    let n = up.as_str().unicode_len();
    if starts_with_lit(up.as_str(), "HTTPS://") {
        let rest = up.as_str().substring_char(8, n);
        proof {
            assert(rest@ =~= upper(url@).skip(8));
        }
        (strip_www_exec(rest), String::from_str("HTTPS://"))
    } else if starts_with_lit(up.as_str(), "HTTP://") {
        let rest = up.as_str().substring_char(7, n);
        proof {
            assert(rest@ =~= upper(url@).skip(7));
        }
        (strip_www_exec(rest), String::from_str("HTTP://"))
    } else {
        (strip_www_exec(up.as_str()), String::from_str("HTTP://"))
    }
}

/// A normalized name and protocol re-normalize to themselves: feeding
/// `protocol + name` back through `normalize_spec` reproduces the pair.
/// The one exception is a host whose normalized name itself starts with
/// `WWW.` (the input carried a doubled `WWW.`), which the leading-`WWW.`
/// strip would shorten again; such names are excluded.
pub proof fn lemma_normalize_idempotent(url: Seq<char>)
    requires
        !www_prefix().is_prefix_of(normalize_spec(url).0),
    ensures
        normalize_spec(normalize_spec(url).1 + normalize_spec(url).0) == normalize_spec(url),
{
    let u = upper(url);
    let name = normalize_spec(url).0;
    let proto = normalize_spec(url).1;
    lemma_upper_idempotent(u);
    assert forall|i: int| 0 <= i < name.len() implies upper_char(#[trigger] name[i]) == name[i] by {
        if https_prefix().is_prefix_of(u) {
            assert(name == strip_www(u.skip(8)));
            lemma_strip_www_fixed(u.skip(8), i);
        } else if http_prefix().is_prefix_of(u) {
            assert(name == strip_www(u.skip(7)));
            lemma_strip_www_fixed(u.skip(7), i);
        } else {
            lemma_strip_www_fixed(u, i);
        }
    }
    let round = proto + name;
    assert(upper(round) =~= round) by {
        assert forall|i: int| 0 <= i < round.len() implies upper_char(#[trigger] round[i])
            == round[i] by {
            if i < proto.len() {
                assert(round[i] == proto[i]);
            } else {
                assert(round[i] == name[i - proto.len()]);
            }
        }
        assert(upper(round).len() == round.len());
    }
    if proto == https_prefix() {
        assert(https_prefix().is_prefix_of(round)) by {
            assert(https_prefix() =~= round.subrange(0, 8));
        }
        assert(round.skip(8) =~= name);
        assert(strip_www(name) == name);
    } else {
        assert(proto == http_prefix());
        assert(!https_prefix().is_prefix_of(round)) by {
            if https_prefix().is_prefix_of(round) {
                assert(round[4] == https_prefix()[4]);
                assert(round[4] == http_prefix()[4]);
            }
        }
        assert(http_prefix().is_prefix_of(round)) by {
            assert(http_prefix() =~= round.subrange(0, 7));
        }
        assert(round.skip(7) =~= name);
        assert(strip_www(name) == name);
    }
}

/// Every character a normalization produces is already upper-case.
proof fn lemma_upper_idempotent(u: Seq<char>)
    requires
        exists|s: Seq<char>| u == upper(s),
    ensures
        forall|i: int| 0 <= i < u.len() ==> upper_char(#[trigger] u[i]) == u[i],
{
    let s = choose|s: Seq<char>| u == upper(s);
    assert forall|i: int| 0 <= i < u.len() implies upper_char(#[trigger] u[i]) == u[i] by {
        assert(u[i] == upper_char(s[i]));
    }
}

/// `strip_www` keeps a suffix of its input, so a character-wise property
/// survives it.
proof fn lemma_strip_www_fixed(s: Seq<char>, i: int)
    requires
        0 <= i < strip_www(s).len(),
        forall|j: int| 0 <= j < s.len() ==> upper_char(#[trigger] s[j]) == s[j],
    ensures
        upper_char(strip_www(s)[i]) == strip_www(s)[i],
{
    if www_prefix().is_prefix_of(s) {
        assert(strip_www(s)[i] == s[i + 4]);
    }
}

} // verus!
