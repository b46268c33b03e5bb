//! Searching byte text for a delimiter and cutting text at it.
//!
//! Everything here speaks of the UTF-8 bytes of a text. A delimiter made of
//! ASCII bytes can only stand where the text holds those very characters, so
//! cutting at it always leaves text on both sides.

use vstd::prelude::*;
use vstd::string::*;
use vstd::utf8::*;

verus! {

/// Whether `pat` stands in `s` at index `i`.
pub open spec fn occurs_at(s: Seq<u8>, pat: Seq<u8>, i: int) -> bool {
    0 <= i && i + pat.len() <= s.len() && s.subrange(i, i + pat.len()) == pat
}

/// Whether `i` is where `pat` stands in `s` for the first time.
pub open spec fn is_first_occurrence(s: Seq<u8>, pat: Seq<u8>, i: int) -> bool {
    occurs_at(s, pat, i) && forall|j: int| 0 <= j < i ==> !occurs_at(s, pat, j)
}

/// The index at which `pat` stands in `s` for the first time, if it does at all.
pub open spec fn first_occurrence(s: Seq<u8>, pat: Seq<u8>) -> Option<int> {
    if exists|i: int| is_first_occurrence(s, pat, i) {
        Some(choose|i: int| is_first_occurrence(s, pat, i))
    } else {
        None
    }
}

/// What stands before and behind the first `pat` in `s`, if `pat` occurs.
pub open spec fn cut(s: Seq<u8>, pat: Seq<u8>) -> Option<(Seq<u8>, Seq<u8>)> {
    match first_occurrence(s, pat) {
        Some(i) => Some((s.subrange(0, i), s.subrange(i + pat.len(), s.len() as int))),
        None => None,
    }
}

/// The pieces of `s` between the occurrences of `pat`, taken from the left.
/// There is always at least one piece.
pub open spec fn split(s: Seq<u8>, pat: Seq<u8>) -> Seq<Seq<u8>>
    decreases s.len(),
{
    match first_occurrence(s, pat) {
        Some(i) if 0 <= i && 0 < pat.len() && i + pat.len() <= s.len() => seq![s.subrange(0, i)]
            + split(s.subrange(i + pat.len(), s.len() as int), pat),
        _ => seq![s],
    }
}

/// Whether every byte of `s` is an ASCII byte.
pub open spec fn all_ascii(s: Seq<u8>) -> bool {
    forall|k: int| 0 <= k < s.len() ==> #[trigger] s[k] < 0x80
}

/// A first occurrence is the only first occurrence.
pub proof fn lemma_first_occurrence_is(s: Seq<u8>, pat: Seq<u8>, i: int)
    requires
        is_first_occurrence(s, pat, i),
    ensures
        first_occurrence(s, pat) == Some(i),
{
    let c = choose|c: int| is_first_occurrence(s, pat, c);
    assert(is_first_occurrence(s, pat, c));
    if c < i {
        assert(!occurs_at(s, pat, c));
    }
    if i < c {
        assert(!occurs_at(s, pat, i));
    }
}

/// Where the pattern stands nowhere, there is no first occurrence.
pub proof fn lemma_first_occurrence_none(s: Seq<u8>, pat: Seq<u8>)
    requires
        forall|i: int| !occurs_at(s, pat, i),
    ensures
        first_occurrence(s, pat) is None,
{
}

/// What the first occurrence found is: in range, and a place where `pat` stands.
pub proof fn lemma_first_occurrence_bounds(s: Seq<u8>, pat: Seq<u8>)
    ensures
        first_occurrence(s, pat) matches Some(i) ==> is_first_occurrence(s, pat, i),
{
    if exists|i: int| is_first_occurrence(s, pat, i) {
        let c = choose|c: int| is_first_occurrence(s, pat, c);
        assert(is_first_occurrence(s, pat, c));
    }
}

/// How `split` goes on from a cut: the piece before the first `pat`, then the
/// pieces of what stands behind it; a text without `pat` is one piece.
pub proof fn lemma_split_step(s: Seq<u8>, pat: Seq<u8>)
    requires
        pat.len() > 0,
    ensures
        cut(s, pat) matches Some((head, tail)) ==> split(s, pat) == seq![head] + split(tail, pat),
        cut(s, pat) is None ==> split(s, pat) == seq![s],
{
    lemma_first_occurrence_bounds(s, pat);
}

/// Behind a run of ASCII bytes at the start of a text a character begins.
pub proof fn lemma_boundary_after_ascii(b: Seq<u8>, n: int)
    requires
        valid_utf8(b),
        0 <= n <= b.len(),
        forall|k: int| 0 <= k < n ==> #[trigger] b[k] < 0x80,
    ensures
        is_char_boundary(b, n),
    decreases n,
{
    if n > 0 {
        assert(b[0] < 0x80);
        assert(is_leading_byte_width_1(b[0]));
        let rest = pop_first_scalar(b);
        assert(length_of_first_scalar(b) == 1);
        assert(rest == b.subrange(1, b.len() as int));
        assert(valid_utf8(rest));
        assert forall|k: int| 0 <= k < n - 1 implies #[trigger] rest[k] < 0x80 by {
            assert(rest[k] == b[k + 1]);
        }
        lemma_boundary_after_ascii(rest, n - 1);
    }
}

/// The index at which `needle` first stands in `hay`.
pub fn find(hay: &[u8], needle: &[u8]) -> (found: Option<usize>)
    requires
        needle@.len() > 0,
    ensures
        found matches Some(i) ==> first_occurrence(hay@, needle@) == Some(i as int)
            && is_first_occurrence(hay@, needle@, i as int),
        found is None ==> first_occurrence(hay@, needle@) is None,
{
    let n: usize = hay.len();
    let m: usize = needle.len();
    if m > n {
        proof {
            lemma_first_occurrence_none(hay@, needle@);
        }
        return None;
    }
    let last: usize = n - m;
    let mut i: usize = 0;
    while i <= last
        invariant
            n == hay@.len(),
            m == needle@.len(),
            0 < m <= n,
            last == n - m,
            i <= last + 1,
            forall|j: int| 0 <= j < i ==> !occurs_at(hay@, needle@, j),
        decreases last + 1 - i,
    {
        let mut k: usize = 0;
        while k < m && hay[i + k] == needle[k]
            invariant
                n == hay@.len(),
                m == needle@.len(),
                i + m <= n,
                k <= m,
                forall|t: int| 0 <= t < k ==> hay@[i + t] == needle@[t],
            decreases m - k,
        {
            k += 1;
        }
        if k == m {
            proof {
                assert(hay@.subrange(i as int, i + m) =~= needle@);
                lemma_first_occurrence_is(hay@, needle@, i as int);
            }
            return Some(i);
        }
        proof {
            assert(hay@.subrange(i as int, i + m)[k as int] == hay@[i + k]);
        }
        i += 1;
    }
    proof {
        lemma_first_occurrence_none(hay@, needle@);
    }
    None
}

/// Cuts `text` at the first `needle`: what stands before it, and what behind.
/// `None` where `needle` does not occur.
pub fn cut_text<'a>(text: &'a str, needle: &[u8]) -> (parts: Option<(&'a str, &'a str)>)
    requires
        needle@.len() > 0,
        all_ascii(needle@),
    ensures
        parts is Some <==> cut(text.spec_bytes(), needle@) is Some,
        parts matches Some((head, tail)) ==> cut(text.spec_bytes(), needle@) == Some(
            (head.spec_bytes(), tail.spec_bytes()),
        ),
{
    broadcast use encode_utf8_valid_utf8;

    let bytes = text.as_bytes();
    match find(bytes, needle) {
        None => None,
        Some(i) => {
            let m: usize = needle.len();
            proof {
                let b = text.spec_bytes();
                assert(b.subrange(i as int, i + m)[0] == b[i as int]);
                assert(needle@[0] < 0x80);
                assert(is_leading_byte_width_1(b[i as int]));
                is_char_boundary_iff_is_leading_byte(b, i as int);
            }
            let (head, rest) = text.split_at(i);
            proof {
                let b = text.spec_bytes();
                let r = rest.spec_bytes();
                assert forall|k: int| 0 <= k < m implies #[trigger] r[k] < 0x80 by {
                    assert(b.subrange(i as int, i + m)[k] == b[i + k]);
                    assert(needle@[k] < 0x80);
                }
                lemma_boundary_after_ascii(r, m as int);
            }
            let (_, tail) = rest.split_at(m);
            proof {
                let b = text.spec_bytes();
                assert(tail.spec_bytes() =~= b.subrange(i + m, b.len() as int));
            }
            Some((head, tail))
        },
    }
}

} // verus!
