//! Knuth-Morris-Pratt search for a pattern in a text.

use vstd::prelude::*;
use crate::text::chars_of;

verus! {

/// `p[..b]` is a proper border of `p[..e]`: shorter than it, and both a
/// prefix and a suffix of it.
pub open spec fn is_border(p: Seq<char>, e: int, b: int) -> bool {
    &&& 0 <= b < e <= p.len()
    &&& forall|k: int| 0 <= k < b ==> p[k] == #[trigger] p[e - b + k]
}

/// `b` is the length of the longest proper border of `p[..e]`.
pub open spec fn is_longest_border(p: Seq<char>, e: int, b: int) -> bool {
    &&& is_border(p, e, b)
    &&& forall|c: int| b < c < e ==> !is_border(p, e, c)
}

/// A border of a border is a border.
proof fn lemma_border_of_border(p: Seq<char>, e: int, b: int, c: int)
    requires
        is_border(p, e, b),
        is_border(p, b, c),
    ensures
        is_border(p, e, c),
{
    assert forall|k: int| 0 <= k < c implies p[k] == #[trigger] p[e - c + k] by {
        assert(p[k] == p[b - c + k]);
        assert(p[b - c + k] == p[e - b + (b - c + k)]);
    }
}

/// Of two borders of `p[..e]`, the shorter is a border of the longer.
proof fn lemma_shorter_border(p: Seq<char>, e: int, b: int, c: int)
    requires
        is_border(p, e, b),
        is_border(p, e, c),
        c < b,
    ensures
        is_border(p, b, c),
{
    assert forall|k: int| 0 <= k < c implies p[k] == #[trigger] p[b - c + k] by {
        assert(p[k] == p[e - c + k]);
        assert(p[b - c + k] == p[e - b + (b - c + k)]);
    }
}

/// A border of `p[..e + 1]` of length `b + 1` is a border of `p[..e]` of
/// length `b` followed by the same character.
proof fn lemma_border_step(p: Seq<char>, e: int, b: int)
    requires
        0 <= b < e < p.len(),
    ensures
        is_border(p, e + 1, b + 1) <==> (is_border(p, e, b) && p[b] == p[e]),
{
    if is_border(p, e + 1, b + 1) {
        assert(p[b] == p[e + 1 - (b + 1) + b]);
        assert forall|k: int| 0 <= k < b implies p[k] == #[trigger] p[e - b + k] by {
            assert(p[k] == p[e + 1 - (b + 1) + k]);
        }
    }
    if is_border(p, e, b) && p[b] == p[e] {
        assert forall|k: int| 0 <= k < b + 1 implies p[k] == #[trigger] p[e + 1 - (b + 1) + k] by {
            if k < b {
                assert(p[k] == p[e - b + k]);
            }
        }
    }
}

/// The prefix table of a pattern: at `i`, the length of the longest proper
/// border of `pattern[..i + 1]`, its longest proper prefix that is also a
/// suffix of it.
/// An empty pattern gets the table `[0]`.
pub fn create_kmp_prefix_table(pattern: &Vec<char>) -> (r: Vec<usize>)
    ensures
        pattern@.len() == 0 ==> r@ == seq![0usize],
        pattern@.len() > 0 ==> r@.len() == pattern@.len(),
        forall|i: int|
            0 <= i < pattern@.len() ==> is_longest_border(pattern@, i + 1, #[trigger] r@[i] as int),
{
    let ghost p = pattern@;
    let mut result: Vec<usize> = Vec::new();
    result.push(0);
    let n = pattern.len();
    if n == 0 {
        assert(result@ =~= seq![0usize]);
        return result;
    }
    let mut i: usize = 1;
    while i < n
        invariant
            p == pattern@,
            n == p.len(),
            1 <= i <= n,
            result@.len() == i,
            forall|e: int| 0 <= e < i ==> is_longest_border(p, e + 1, #[trigger] result@[e] as int),
        decreases n - i,
    {
        let mut j: usize = result[i - 1];
        proof {
            assert(is_longest_border(p, i as int, j as int));
            assert forall|c: int| j + 1 < c < i + 1 implies !#[trigger] is_border(p, i + 1, c) by {
                if is_border(p, i + 1, c) {
                    lemma_border_step(p, i as int, c - 1);
                }
            }
        }
        while j > 0 && pattern[j] != pattern[i]
            invariant
                p == pattern@,
                n == p.len(),
                1 <= i < n,
                result@.len() == i,
                forall|e: int| 0 <= e < i ==> is_longest_border(p, e + 1, #[trigger] result@[e] as int),
                is_border(p, i as int, j as int),
                forall|c: int| j + 1 < c < i + 1 ==> !#[trigger] is_border(p, i + 1, c),
            decreases j,
        {
            let ghost old_j = j as int;
            j = result[j - 1];
            proof {
                let nj = j as int;
                assert(is_longest_border(p, old_j, nj));
                lemma_border_of_border(p, i as int, old_j, nj);
                assert forall|c: int| nj + 1 < c < i + 1 implies !#[trigger] is_border(p, i + 1, c) by {
                    if c <= old_j + 1 && is_border(p, i + 1, c) {
                        lemma_border_step(p, i as int, c - 1);
                        if c == old_j + 1 {
                        } else {
                            lemma_shorter_border(p, i as int, old_j, c - 1);
                        }
                    }
                }
            }
        }
        proof {
            lemma_border_step(p, i as int, j as int);
        }
        if pattern[j] == pattern[i] {
            j += 1;
        } else {
            proof {
                if is_border(p, i + 1, 1) {
                    lemma_border_step(p, i as int, 0);
                }
            }
        }
        result.push(j);
        proof {
            assert(result@[i as int] == j);
        }
        i += 1;
    }
    result
}

/// `pattern` occurs in `text` starting at position `k`.
pub open spec fn occurs_at(pattern: Seq<char>, text: Seq<char>, k: int) -> bool {
    &&& 0 <= k
    &&& k + pattern.len() <= text.len()
    &&& forall|q: int| 0 <= q < pattern.len() ==> #[trigger] text[k + q] == pattern[q]
}

/// `pattern[..l]` ends `text[..t]`.
spec fn ends_with_prefix(pattern: Seq<char>, text: Seq<char>, t: int, l: int) -> bool {
    &&& 0 <= l <= t <= text.len()
    &&& l <= pattern.len()
    &&& forall|q: int| 0 <= q < l ==> #[trigger] text[t - l + q] == pattern[q]
}

/// Two prefixes of the pattern that both end the text read so far: the
/// shorter is a border of the longer.
proof fn lemma_ends_border(pattern: Seq<char>, text: Seq<char>, t: int, b: int, c: int)
    requires
        ends_with_prefix(pattern, text, t, b),
        ends_with_prefix(pattern, text, t, c),
        c < b,
    ensures
        is_border(pattern, b, c),
{
    assert forall|k: int| 0 <= k < c implies pattern[k] == #[trigger] pattern[b - c + k] by {
        assert(text[t - c + k] == pattern[k]);
        assert(text[t - b + (b - c + k)] == pattern[b - c + k]);
    }
}

/// A border of a prefix that ends the text ends the text too.
proof fn lemma_border_ends(pattern: Seq<char>, text: Seq<char>, t: int, b: int, c: int)
    requires
        ends_with_prefix(pattern, text, t, b),
        is_border(pattern, b, c),
    ensures
        ends_with_prefix(pattern, text, t, c),
{
    assert forall|q: int| 0 <= q < c implies #[trigger] text[t - c + q] == pattern[q] by {
        assert(pattern[q] == pattern[b - c + q]);
        assert(text[t - b + (b - c + q)] == pattern[b - c + q]);
    }
}

/// A prefix of length `l + 1` ends `text[..t + 1]` exactly when the prefix
/// of length `l` ends `text[..t]` and the next characters agree.
proof fn lemma_ends_step(pattern: Seq<char>, text: Seq<char>, t: int, l: int)
    requires
        0 <= l < pattern.len(),
        0 <= t < text.len(),
        l <= t,
    ensures
        ends_with_prefix(pattern, text, t + 1, l + 1) <==> (ends_with_prefix(pattern, text, t, l)
            && text[t] == pattern[l]),
{
    if ends_with_prefix(pattern, text, t + 1, l + 1) {
        assert(text[t + 1 - (l + 1) + l] == pattern[l]);
        assert forall|q: int| 0 <= q < l implies #[trigger] text[t - l + q] == pattern[q] by {
            assert(text[t + 1 - (l + 1) + q] == pattern[q]);
        }
    }
    if ends_with_prefix(pattern, text, t, l) && text[t] == pattern[l] {
        assert forall|q: int| 0 <= q < l + 1 implies #[trigger] text[t + 1 - (l + 1) + q]
            == pattern[q] by {
            if q < l {
                assert(text[t - l + q] == pattern[q]);
            }
        }
    }
}

/// An occurrence at `k` is the whole pattern ending `text[..k + m]`.
proof fn lemma_occurs_ends(pattern: Seq<char>, text: Seq<char>, k: int)
    requires
        0 <= k,
        k + pattern.len() <= text.len(),
    ensures
        occurs_at(pattern, text, k) <==> ends_with_prefix(
            pattern,
            text,
            k + pattern.len(),
            pattern.len() as int,
        ),
{
    let m = pattern.len() as int;
    if occurs_at(pattern, text, k) {
        assert forall|q: int| 0 <= q < m implies #[trigger] text[k + m - m + q] == pattern[q] by {
            assert(text[k + q] == pattern[q]);
        }
    }
    if ends_with_prefix(pattern, text, k + m, m) {
        assert forall|q: int| 0 <= q < m implies #[trigger] text[k + q] == pattern[q] by {
            assert(text[k + m - m + q] == pattern[q]);
        }
    }
}

/// Finds the first occurrence of `pattern` in `text` with the
/// Knuth-Morris-Pratt algorithm, counting in characters; an empty pattern
/// occurs at 0. The text is read once: after a mismatch the prefix table says
/// how much of the pattern still matches.
pub fn kmp_find(pattern: &String, text: &String) -> (r: Option<usize>)
    ensures
        r.is_some() ==> occurs_at(pattern@, text@, r.unwrap() as int),
        r.is_some() ==> forall|k: int| 0 <= k < r.unwrap() ==> !occurs_at(pattern@, text@, k),
        r.is_none() ==> forall|k: int| !occurs_at(pattern@, text@, k),
{
    let pattern_vec = chars_of(pattern);
    let text_vec = chars_of(text);
    let ghost p = pattern@;
    let ghost t = text@;
    let m = pattern_vec.len();
    if m == 0 {
        assert(occurs_at(p, t, 0));
        return Some(0);
    }
    let mut longest_prefix: usize = 0;
    let mut result: usize = 0;
    let prefix_table = create_kmp_prefix_table(&pattern_vec);
    let n = text_vec.len();
    while result < n
        invariant
            p == pattern_vec@,
            t == text_vec@,
            p == pattern@,
            t == text@,
            m == p.len(),
            m > 0,
            n == t.len(),
            prefix_table@.len() == m,
            forall|i: int| 0 <= i < m ==> is_longest_border(p, i + 1, #[trigger] prefix_table@[i] as int),
            result <= n,
            longest_prefix < m,
            ends_with_prefix(p, t, result as int, longest_prefix as int),
            forall|l: int|
                longest_prefix < l <= m ==> !#[trigger] ends_with_prefix(p, t, result as int, l),
            forall|k: int| 0 <= k && k + m <= result ==> !occurs_at(p, t, k),
        decreases n - result,
    {
        let text_char = text_vec[result];
        let ghost pos = result as int;
        proof {
            assert forall|l: int| longest_prefix + 1 < l <= m implies !#[trigger] ends_with_prefix(
                p,
                t,
                pos + 1,
                l,
            ) by {
                if ends_with_prefix(p, t, pos + 1, l) {
                    lemma_ends_step(p, t, pos, l - 1);
                }
            }
        }
        while longest_prefix > 0 && text_char != pattern_vec[longest_prefix]
            invariant
                p == pattern_vec@,
                t == text_vec@,
                m == p.len(),
                n == t.len(),
                0 <= pos < n,
                result == pos,
                forall|k: int| 0 <= k && k + m <= pos ==> !occurs_at(p, t, k),
                text_char == t[pos],
                prefix_table@.len() == m,
                forall|i: int| 0 <= i < m ==> is_longest_border(p, i + 1, #[trigger] prefix_table@[i] as int),
                longest_prefix < m,
                ends_with_prefix(p, t, pos, longest_prefix as int),
                forall|l: int|
                    longest_prefix + 1 < l <= m ==> !#[trigger] ends_with_prefix(p, t, pos + 1, l),
            decreases longest_prefix,
        {
            let ghost old_lp = longest_prefix as int;
            longest_prefix = prefix_table[longest_prefix - 1];
            proof {
                let nl = longest_prefix as int;
                assert(is_longest_border(p, old_lp, nl));
                lemma_border_ends(p, t, pos, old_lp, nl);
                assert forall|l: int| nl + 1 < l <= m implies !#[trigger] ends_with_prefix(
                    p,
                    t,
                    pos + 1,
                    l,
                ) by {
                    if l <= old_lp + 1 && ends_with_prefix(p, t, pos + 1, l) {
                        lemma_ends_step(p, t, pos, l - 1);
                        if l < old_lp + 1 {
                            lemma_ends_border(p, t, pos, old_lp, l - 1);
                        }
                    }
                }
            }
        }
        proof {
            lemma_ends_step(p, t, pos, longest_prefix as int);
        }
        if text_char == pattern_vec[longest_prefix] {
            longest_prefix += 1;
        } else {
            proof {
                if ends_with_prefix(p, t, pos + 1, 1) {
                    lemma_ends_step(p, t, pos, 0);
                }
            }
        }
        result += 1;
        if longest_prefix == m {
            proof {
                assert(ends_with_prefix(p, t, result as int, m as int));
                lemma_occurs_ends(p, t, result - m);
                assert forall|k: int| 0 <= k < result - m implies !occurs_at(p, t, k) by {
                    assert(k + m <= pos);
                }
            }
            return Some(result - m);
        }
        proof {
            assert forall|k: int| 0 <= k && k + m <= result implies !occurs_at(p, t, k) by {
                if k + m == result {
                    lemma_occurs_ends(p, t, k);
                }
            }
        }
    }
    proof {
        assert forall|k: int| !occurs_at(p, t, k) by {
            if 0 <= k && k + m <= n {
            }
        }
    }
    None
}

} // verus!
