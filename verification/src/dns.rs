//! DNS candidate construction and answer selection. A normalized host is
//! split on dots; the candidates are its suffixes of two or more labels,
//! shortest first, capped by `max_depth`. The first candidate whose query
//! answers with an IPv4 address decides `domain` (the leftmost label of that
//! suffix) and `ip`. The queries themselves are outside work: callers probe
//! the candidates in order and hand the answers back.

use vstd::prelude::*;

use crate::error::CrawlerError;
use crate::text::push_char;

verus! {

/// What a resolved host contributes to a URL node.
#[derive(Clone, Debug)]
pub struct NetworkStats {
    pub domain: String,
    pub ip: String,
}

/// Split on `.`: the labels of a host, empty labels kept, as many labels as
/// dots plus one.
pub open spec fn split_dots(s: Seq<char>) -> Seq<Seq<char>>
    decreases s.len(),
{
    if s.len() == 0 {
        seq![Seq::empty()]
    } else if s[0] == '.' {
        seq![Seq::<char>::empty()] + split_dots(s.skip(1))
    } else {
        let rest = split_dots(s.skip(1));
        rest.update(0, seq![s[0]] + rest[0])
    }
}

pub proof fn lemma_split_dots_len(s: Seq<char>)
    ensures
        split_dots(s).len() >= 1,
    decreases s.len(),
{
    if s.len() > 0 {
        lemma_split_dots_len(s.skip(1));
    }
}

/// Join labels with `.`.
pub open spec fn join_dots(parts: Seq<Seq<char>>) -> Seq<char>
    decreases parts.len(),
{
    if parts.len() == 0 {
        Seq::empty()
    } else if parts.len() == 1 {
        parts[0]
    } else {
        parts[0] + seq!['.'] + join_dots(parts.skip(1))
    }
}

/// The suffix of the last `suffix_len` labels, joined with `.`.
pub open spec fn suffix_candidate(parts: Seq<Seq<char>>, suffix_len: int) -> Seq<char> {
    join_dots(parts.skip(parts.len() - suffix_len))
}

/// How many candidates a host yields under the depth cap: one for each
/// suffix length from 2 up to `min(max_depth, label count)`.
pub open spec fn candidate_count(parts: Seq<Seq<char>>, max_depth: int) -> int {
    let m = if max_depth < parts.len() {
        max_depth
    } else {
        parts.len() as int
    };
    if m < 2 {
        0
    } else {
        m - 1
    }
}

/// The candidate domains, shortest suffix first.
pub open spec fn candidates_spec(s: Seq<char>, max_depth: int) -> Seq<Seq<char>> {
    let parts = split_dots(s);
    Seq::new(
        candidate_count(parts, max_depth) as nat,
        |i: int| suffix_candidate(parts, i + 2),
    )
}

/// Split a host on `.` into its labels.
pub fn split_dots_exec(s: &str) -> (r: Vec<String>)
    ensures
        r.deep_view() == split_dots(s@),
    decreases s@.len(),
{
    let n = s.unicode_len();
    if n == 0 {
        let mut r: Vec<String> = Vec::new();
        r.push(String::new());
        proof {
            assert(r.deep_view() =~= split_dots(s@));
        }
        r
    } else if s.get_char(0) == '.' {
        let rest = s.substring_char(1, n);
        proof {
            assert(rest@ =~= s@.skip(1));
        }
        let mut r = split_dots_exec(rest);
        r.insert(0, String::new());
        proof {
            assert(r.deep_view() =~= seq![Seq::<char>::empty()] + split_dots(s@.skip(1)));
        }
        r
    } else {
        let rest = s.substring_char(1, n);
        proof {
            assert(rest@ =~= s@.skip(1));
        }
        let mut r = split_dots_exec(rest);
        proof {
            lemma_split_dots_len(s@.skip(1));
        }
        let mut head = String::new();
        push_char(&mut head, s.get_char(0));
        head.append(r[0].as_str());
        r[0] = head;
        proof {
            let rest_parts = split_dots(s@.skip(1));
            assert(head@ =~= seq![s@[0]] + rest_parts[0]);
            assert(r.deep_view() =~= rest_parts.update(0, seq![s@[0]] + rest_parts[0]));
        }
        r
    }
}

/// Join the labels from index `k` on with `.`.
fn join_from(parts: &Vec<String>, k: usize) -> (r: String)
    requires
        k < parts@.len(),
    ensures
        r@ == join_dots(parts.deep_view().skip(k as int)),
    decreases parts@.len() - k,
{
    let mut r = String::new();
    r.append(parts[k].as_str());
    if k < parts.len() - 1 {
        push_char(&mut r, '.');
        let tail = join_from(parts, k + 1);
        r.append(tail.as_str());
        proof {
            assert(parts.deep_view().skip(k as int)[0] == parts.deep_view()[k as int]);
            assert(parts.deep_view().skip(k as int).skip(1) =~= parts.deep_view().skip(
                k + 1 as int,
            ));
            assert(r@ =~= join_dots(parts.deep_view().skip(k as int)));
        }
    } else {
        proof {
            assert(parts.deep_view().skip(k as int).len() == 1);
            assert(parts.deep_view().skip(k as int)[0] == parts.deep_view()[k as int]);
            assert(r@ =~= join_dots(parts.deep_view().skip(k as int)));
        }
    }
    r
}

/// The candidate domains a normalized host is probed under: its dot-suffixes
/// of two or more labels, shortest first, at most `max_depth` labels.
pub fn build_candidate_domains(normalized_url: &str, max_depth: usize) -> (r: Vec<String>)
    ensures
        r.deep_view() == candidates_spec(normalized_url@, max_depth as int),
{
    let parts = split_dots_exec(normalized_url);
    proof {
        lemma_split_dots_len(normalized_url@);
    }
    let np = parts.len();
    let m = if max_depth < np {
        max_depth
    } else {
        np
    };
    let mut out: Vec<String> = Vec::new();
    if m < 2 {
        proof {
            assert(out.deep_view() =~= candidates_spec(normalized_url@, max_depth as int));
        }
        return out;
    }
    let cnt = m - 1;
    let mut idx: usize = 0;
    while idx < cnt
        invariant
            idx <= cnt,
            cnt == candidate_count(parts.deep_view(), max_depth as int),
            cnt + 1 <= np == parts@.len(),
            parts.deep_view().len() == np,
            parts.deep_view() == split_dots(normalized_url@),
            out.deep_view() =~= candidates_spec(normalized_url@, max_depth as int).take(idx as int),
        decreases cnt - idx,
    {
        let ghost pre_deep = out.deep_view();
        let c = join_from(&parts, np - (idx + 2));
        proof {
            let full = candidates_spec(normalized_url@, max_depth as int);
            assert(full[idx as int] == suffix_candidate(parts.deep_view(), idx + 2));
            assert(c@ == full[idx as int]);
        }
        out.push(c);
        proof {
            let full = candidates_spec(normalized_url@, max_depth as int);
            assert(out.deep_view() =~= pre_deep.push(full[idx as int]));
            assert(out.deep_view() =~= full.take(idx + 1 as int));
        }
        idx += 1;
    }
    proof {
        assert(out.deep_view() =~= candidates_spec(normalized_url@, max_depth as int));
    }
    out
}

/// The index of the first answered probe.
pub open spec fn first_answer(answers: Seq<Option<Seq<char>>>) -> Option<int>
    decreases answers.len(),
{
    if answers.len() == 0 {
        None
    } else if answers[0] is Some {
        Some(0)
    } else {
        match first_answer(answers.skip(1)) {
            Some(i) => Some(i + 1),
            None => None,
        }
    }
}

/// Decide a host's network stats from the probe answers, one per candidate
/// in `build_candidate_domains` order: the first candidate with an IPv4
/// answer wins; its leftmost label is the `domain` and the answer the `ip`.
/// With no answer at all — or no candidate to begin with — resolution fails.
pub fn resolve_from_answers(normalized_url: &str, max_depth: usize, answers: &Vec<Option<String>>) -> (r:
    Result<NetworkStats, CrawlerError>)
    requires
        answers.deep_view().len() == candidates_spec(normalized_url@, max_depth as int).len(),
        max_depth <= 0xffff_ffff,
    ensures
        match r {
            Ok(stats) => {
                let parts = split_dots(normalized_url@);
                let i = first_answer(answers.deep_view());
                &&& i is Some
                &&& stats.ip@ == answers.deep_view()[i->0]->0
                &&& stats.domain@ == parts[parts.len() - (i->0 + 2)]
            },
            Err(e) => {
                &&& first_answer(answers.deep_view()) is None
                &&& e matches CrawlerError::DnsResolution { domain, attempts } && domain@
                    == normalized_url@ && attempts == max_depth as u32
            },
        },
{
    let parts = split_dots_exec(normalized_url);
    proof {
        lemma_split_dots_len(normalized_url@);
    }
    let np = parts.len();
    let n = answers.len();
    proof {
        assert(answers.deep_view().skip(0) =~= answers.deep_view());
    }
    let mut i: usize = 0;
    while i < n
        invariant
            i <= n,
            n == answers@.len(),
            n == answers.deep_view().len(),
            n == candidates_spec(normalized_url@, max_depth as int).len(),
            parts.deep_view() == split_dots(normalized_url@),
            np == parts@.len(),
            forall|j: int| 0 <= j < i ==> answers.deep_view()[j] is None,
            first_answer(answers.deep_view()) == match first_answer(
                answers.deep_view().skip(i as int),
            ) {
                Some(k) => Some(k + i),
                None => None::<int>,
            },
        decreases n - i,
    {
        match &answers[i] {
            Some(ip) => {
                proof {
                    assert(answers.deep_view()[i as int] == answers@[i as int].deep_view());
                    assert(answers.deep_view().skip(i as int)[0] == answers.deep_view()[i as int]);
                    assert(first_answer(answers.deep_view()) == Some(i as int));
                    // the i-th candidate is the suffix of i + 2 labels, so
                    // its leftmost label sits i + 2 from the right
                    assert(candidate_count(parts.deep_view(), max_depth as int) == n);
                    assert(np >= i + 2);
                }
                let stats = NetworkStats {
                    domain: parts[np - (i + 2)].clone(),
                    ip: ip.clone(),
                };
                proof {
                    assert(stats.domain@ == parts.deep_view()[np - (i + 2)]);
                }
                return Ok(stats);
            },
            None => {
                proof {
                    assert(answers.deep_view()[i as int] is None);
                    assert(answers.deep_view().skip(i as int)[0] is None);
                    assert(answers.deep_view().skip(i as int).skip(1) =~= answers.deep_view().skip(
                        i + 1 as int,
                    ));
                }
            },
        }
        i += 1;
    }
    proof {
        assert(answers.deep_view().skip(n as int).len() == 0);
        assert(first_answer(answers.deep_view()) is None);
    }
    Err(
        CrawlerError::DnsResolution {
            domain: String::from_str(normalized_url),
            attempts: max_depth as u32,
        },
    )
}

} // verus!
