//! Verified substring search over byte sequences: the leftmost
//! occurrence of one pattern, and the leftmost candidate among several.

use vstd::prelude::*;

verus! {

/// `pat` occurs in `text` at position `i`.
pub open spec fn occurs_at(text: Seq<u8>, pat: Seq<u8>, i: int) -> bool {
    &&& 0 <= i
    &&& i + pat.len() <= text.len()
    &&& text.subrange(i, i + pat.len() as int) == pat
}

/// `pat` occurs somewhere in `text`.
pub open spec fn occurs(text: Seq<u8>, pat: Seq<u8>) -> bool {
    exists|i: int| occurs_at(text, pat, i)
}

/// The smallest position at or after `from` where `pat` occurs in `text`.
pub open spec fn first_at_or_after(text: Seq<u8>, pat: Seq<u8>, from: int) -> Option<int>
    decreases text.len() - from + 1 when 0 <= from
{
    if from + pat.len() > text.len() {
        None
    } else if occurs_at(text, pat, from) {
        Some(from)
    } else {
        first_at_or_after(text, pat, from + 1)
    }
}

/// `first_at_or_after` returns the leftmost occurrence at or after `from`,
/// and `None` exactly when there is none.
pub proof fn lemma_first_at_or_after(text: Seq<u8>, pat: Seq<u8>, from: int)
    requires
        0 <= from,
    ensures
        match first_at_or_after(text, pat, from) {
            Some(i) => from <= i && occurs_at(text, pat, i) && forall|j: int|
                from <= j < i ==> !occurs_at(text, pat, j),
            None => forall|j: int| from <= j ==> !occurs_at(text, pat, j),
        },
    decreases text.len() - from + 1,
{
    if from + pat.len() > text.len() {
        assert forall|j: int| from <= j implies !occurs_at(text, pat, j) by {
            assert(j + pat.len() >= from + pat.len());
        }
    } else if occurs_at(text, pat, from) {
    } else {
        lemma_first_at_or_after(text, pat, from + 1);
    }
}

/// A position satisfying the leftmost-occurrence characterization is the one
/// `first_at_or_after` returns.
pub proof fn lemma_first_unique(text: Seq<u8>, pat: Seq<u8>, from: int, i: int)
    requires
        0 <= from <= i,
        occurs_at(text, pat, i),
        forall|j: int| from <= j < i ==> !occurs_at(text, pat, j),
    ensures
        first_at_or_after(text, pat, from) == Some(i),
{
    lemma_first_at_or_after(text, pat, from);
    match first_at_or_after(text, pat, from) {
        Some(k) => {
            if k < i {
                assert(!occurs_at(text, pat, k));
            } else if k > i {
                assert(!occurs_at(text, pat, i));
            }
        },
        None => {
            assert(!occurs_at(text, pat, i));
        },
    }
}

/// If `pat` occurs nowhere at or after `from`, `first_at_or_after` is `None`.
pub proof fn lemma_first_none(text: Seq<u8>, pat: Seq<u8>, from: int)
    requires
        0 <= from,
        forall|j: int| from <= j ==> !occurs_at(text, pat, j),
    ensures
        first_at_or_after(text, pat, from) is None,
{
    lemma_first_at_or_after(text, pat, from);
    match first_at_or_after(text, pat, from) {
        Some(k) => {
            assert(!occurs_at(text, pat, k));
        },
        None => {},
    }
}

/// Occurrences in a suffix of `text` are occurrences in `text`, shifted.
pub proof fn lemma_occurs_shift(text: Seq<u8>, pat: Seq<u8>, from: int, i: int)
    requires
        0 <= from <= text.len(),
        0 <= i,
    ensures
        occurs_at(text.subrange(from, text.len() as int), pat, i) <==> occurs_at(
            text,
            pat,
            from + i,
        ),
{
    let suffix = text.subrange(from, text.len() as int);
    if i + pat.len() <= suffix.len() {
        let sub_s = suffix.subrange(i, i + pat.len() as int);
        let sub_t = text.subrange(from + i, from + i + pat.len() as int);
        assert(sub_s =~= sub_t);
    }
}

/// The leftmost occurrence in a suffix of `text` is the leftmost occurrence
/// in `text` at or after the suffix's start, shifted.
pub proof fn lemma_first_in_suffix(text: Seq<u8>, pat: Seq<u8>, from: int)
    requires
        0 <= from <= text.len(),
    ensures
        first_at_or_after(text.subrange(from, text.len() as int), pat, 0) == match first_at_or_after(
            text,
            pat,
            from,
        ) {
            Some(i) => Some(i - from),
            None => None::<int>,
        },
{
    let suffix = text.subrange(from, text.len() as int);
    lemma_first_at_or_after(text, pat, from);
    match first_at_or_after(text, pat, from) {
        Some(i) => {
            lemma_occurs_shift(text, pat, from, i - from);
            assert forall|j: int| 0 <= j < i - from implies !occurs_at(suffix, pat, j) by {
                lemma_occurs_shift(text, pat, from, j);
            }
            lemma_first_unique(suffix, pat, 0, i - from);
        },
        None => {
            assert forall|j: int| 0 <= j implies !occurs_at(suffix, pat, j) by {
                lemma_occurs_shift(text, pat, from, j);
            }
            lemma_first_none(suffix, pat, 0);
        },
    }
}

/// Among the patterns with index at least `k`, the candidate occurring at the
/// smallest position in `text`; a tie is broken in favour of the lower index.
pub open spec fn best_candidate_from(text: Seq<u8>, pats: Seq<Seq<u8>>, k: int) -> Option<
    (int, int),
>
    decreases pats.len() - k when 0 <= k
{
    if k >= pats.len() {
        None
    } else {
        let rest = best_candidate_from(text, pats, k + 1);
        match first_at_or_after(text, pats[k], 0) {
            None => rest,
            Some(p) => match rest {
                None => Some((p, k)),
                Some((p2, j2)) => if p <= p2 {
                    Some((p, k))
                } else {
                    Some((p2, j2))
                },
            },
        }
    }
}

/// The chosen candidate occurs where claimed, no candidate occurs earlier,
/// and no candidate of lower index occurs at the same position; `None` means
/// no candidate occurs at all.
pub proof fn lemma_best_candidate(text: Seq<u8>, pats: Seq<Seq<u8>>, k: int)
    requires
        0 <= k,
    ensures
        match best_candidate_from(text, pats, k) {
            None => forall|j: int, q: int|
                k <= j < pats.len() ==> !occurs_at(text, pats[j], q),
            Some((p, idx)) => {
                &&& k <= idx < pats.len()
                &&& occurs_at(text, pats[idx], p)
                &&& forall|j: int, q: int|
                    k <= j < pats.len() && q < p ==> !occurs_at(text, pats[j], q)
                &&& forall|j: int| k <= j < idx ==> !occurs_at(text, pats[j], p)
            },
        },
    decreases pats.len() - k,
{
    if k >= pats.len() {
    } else {
        lemma_best_candidate(text, pats, k + 1);
        lemma_first_at_or_after(text, pats[k], 0);
        let rest = best_candidate_from(text, pats, k + 1);
        match first_at_or_after(text, pats[k], 0) {
            None => {
                assert(forall|q: int| !occurs_at(text, pats[k], q));
            },
            Some(p) => {
                match rest {
                    None => {},
                    Some((p2, j2)) => {},
                }
            },
        }
    }
}

/// A candidate satisfying the leftmost-lowest-index characterization is the
/// one `best_candidate_from` selects.
pub proof fn lemma_best_unique(text: Seq<u8>, pats: Seq<Seq<u8>>, p: int, idx: int)
    requires
        0 <= idx < pats.len(),
        occurs_at(text, pats[idx], p),
        forall|j: int, q: int| 0 <= j < pats.len() && q < p ==> !occurs_at(text, pats[j], q),
        forall|j: int| 0 <= j < idx ==> !occurs_at(text, pats[j], p),
    ensures
        best_candidate_from(text, pats, 0) == Some((p, idx)),
{
    lemma_best_candidate(text, pats, 0);
    match best_candidate_from(text, pats, 0) {
        None => {
            assert(!occurs_at(text, pats[idx], p));
        },
        Some((p2, idx2)) => {
            if p2 < p {
                assert(!occurs_at(text, pats[idx2], p2));
            } else if p2 > p {
                assert(!occurs_at(text, pats[idx], p));
            } else {
                if idx2 < idx {
                    assert(!occurs_at(text, pats[idx2], p));
                } else if idx2 > idx {
                    assert(!occurs_at(text, pats[idx], p));
                }
            }
        },
    }
}

/// If no candidate occurs anywhere, `best_candidate_from` is `None`.
pub proof fn lemma_best_none(text: Seq<u8>, pats: Seq<Seq<u8>>)
    requires
        forall|j: int, q: int| 0 <= j < pats.len() ==> !occurs_at(text, pats[j], q),
    ensures
        best_candidate_from(text, pats, 0) is None,
{
    lemma_best_candidate(text, pats, 0);
    match best_candidate_from(text, pats, 0) {
        Some((p, idx)) => {
            assert(!occurs_at(text, pats[idx], p));
        },
        None => {},
    }
}

/// Leftmost occurrence of `pat` in `text` at or after `from`.
pub fn find_in_bytes(text: &Vec<u8>, from: usize, pat: &Vec<u8>) -> (r: Option<usize>)
    requires
        from <= text@.len(),
    ensures
        match r {
            Some(p) => from <= p && first_at_or_after(text@, pat@, from as int) == Some(p as int),
            None => first_at_or_after(text@, pat@, from as int) is None,
        },
{
    let n = text.len();
    let m = pat.len();
    if m == 0 {
        proof {
            assert(text@.subrange(from as int, from as int) =~= pat@);
            lemma_first_unique(text@, pat@, from as int, from as int);
        }
        return Some(from);
    }
    if m > n || from > n - m {
        proof {
            assert forall|j: int| from <= j implies !occurs_at(text@, pat@, j) by {
                assert(j + pat@.len() > text@.len());
            }
            lemma_first_none(text@, pat@, from as int);
        }
        return None;
    }
    let mut p = from;
    while p <= n - m
        invariant
            from <= p,
            p <= n - m + 1,
            1 <= m <= n,
            n == text@.len(),
            m == pat@.len(),
            forall|j: int| from <= j < p ==> !occurs_at(text@, pat@, j),
        decreases n - m - p + 1,
    {
        let mut k: usize = 0;
        let mut is_match = true;
        while is_match && k < m
            invariant
                k <= m,
                p + m <= n,
                n == text@.len(),
                m == pat@.len(),
                is_match ==> forall|t: int| 0 <= t < k ==> text@[p + t] == pat@[t],
                !is_match ==> !occurs_at(text@, pat@, p as int),
            decreases m - k, is_match as int,
        {
            if text[p + k] != pat[k] {
                proof {
                    if occurs_at(text@, pat@, p as int) {
                        assert(text@.subrange(p as int, p + m as int)[k as int] == text@[p + k]);
                    }
                }
                is_match = false;
            } else {
                k = k + 1;
            }
        }
        if is_match {
            proof {
                assert(text@.subrange(p as int, p + m as int) =~= pat@);
                lemma_first_unique(text@, pat@, from as int, p as int);
            }
            return Some(p);
        }
        p = p + 1;
    }
    proof {
        assert forall|j: int| from <= j implies !occurs_at(text@, pat@, j) by {
            if j <= n - m {
                assert(!occurs_at(text@, pat@, j));
            } else {
                assert(j + pat@.len() > text@.len());
            }
        }
        lemma_first_none(text@, pat@, from as int);
    }
    None
}

} // verus!

