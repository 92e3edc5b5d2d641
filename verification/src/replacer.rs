//! The scan engine: repeatedly asks the query's matching strategy for the
//! next match in the remaining suffix of the input, accumulates the
//! non-overlapping matches into a fragment list, and reconstructs the
//! output string. All offsets are byte offsets into the UTF-8 text; every
//! consumed span is proved to lie on character boundaries.

use crate::encoding::{
    byte_len, lemma_boundary_shift, lemma_encode_concat, lemma_prefix_boundary,
    lemma_span_boundaries,
};
use crate::fragments::{
    frag_in_bounds, frags_wf, in_end, input_frags, lemma_body_snoc, lemma_frags_wf_push,
    lemma_output_side_sorted, materialize, materialize_body, out_end, output_frags, side_wf, Frag,
    Fragments,
};
use crate::pattern::{regex_expand, regex_expand_of, regex_find, regex_find_of};
use crate::query::{Query, QueryModel};
use crate::search::{
    best_candidate_from, find_in_bytes, first_at_or_after, lemma_best_candidate, lemma_best_none,
    lemma_best_unique, lemma_first_at_or_after, lemma_first_in_suffix, lemma_occurs_shift, occurs,
    occurs_at,
};
use vstd::prelude::*;
use vstd::string::StringSliceAdditionalSpecFns;
use vstd::utf8::{
    encode_utf8, encode_utf8_valid_utf8, is_char_boundary, valid_utf8, valid_utf8_concat,
    valid_utf8_split,
};

verus! {

/// What the query's strategy finds next in `buff`: the byte position of
/// the match within `buff`, the matched text, and the text replacing it;
/// or `None` when the strategy matches nowhere in `buff`.
pub open spec fn find_next_spec(q: QueryModel, buff: Seq<u8>) -> Option<(int, Seq<u8>, Seq<u8>)> {
    match q {
        QueryModel::Substring { pattern, replacement } => match first_at_or_after(
            buff,
            pattern,
            0,
        ) {
            None => None,
            Some(p) => Some((p, pattern, replacement)),
        },
        QueryModel::Regex { source, template } => match regex_find_of(source, buff) {
            None => None,
            Some((p, m)) => Some((p, m, regex_expand_of(source, buff, template))),
        },
        QueryModel::Subvert { patterns, replacements } => match best_candidate_from(
            buff,
            patterns,
            0,
        ) {
            None => None,
            Some((p, idx)) => Some((p, patterns[idx], replacements[idx])),
        },
    }
}

/// `frags` is exactly the sequence of successive matches of `q` against
/// `input`, scanning from byte position `in_cur` with the output cursor at
/// `out_cur`: each fragment pair records the next match, translated to
/// absolute positions, and scanning resumes just past the consumed span.
pub open spec fn chain(
    q: QueryModel,
    input: Seq<u8>,
    in_cur: int,
    out_cur: int,
    frags: Seq<(Frag, Frag)>,
) -> bool
    decreases frags.len(),
{
    if frags.len() == 0 {
        true
    } else {
        match find_next_spec(q, input.subrange(in_cur, input.len() as int)) {
            None => false,
            Some((pos, m, rep)) => {
                &&& m.len() > 0
                &&& frags[0].0 == Frag { index: in_cur + pos, text: m }
                &&& frags[0].1 == Frag { index: out_cur + pos, text: rep }
                &&& chain(
                    q,
                    input,
                    in_cur + pos + m.len(),
                    out_cur + pos + rep.len(),
                    frags.drop_first(),
                )
            },
        }
    }
}

/// Scanning stops at byte position `i`: the strategy finds nothing in the
/// remaining suffix, or only a zero-width match, which the engine refuses
/// to consume.
pub open spec fn stopped(q: QueryModel, input: Seq<u8>, i: int) -> bool {
    match find_next_spec(q, input.subrange(i, input.len() as int)) {
        None => true,
        Some((pos, m, rep)) => m.len() == 0,
    }
}

/// `frags` is the complete scan of `q` over `input`: the successive matches
/// from the start, after which the strategy finds nothing more.
pub open spec fn is_scan(q: QueryModel, input: Seq<u8>, frags: Seq<(Frag, Frag)>) -> bool {
    &&& chain(q, input, 0, 0, frags)
    &&& stopped(q, input, in_end(0, frags))
}

/// Extending a chain by the next match keeps it a chain.
proof fn lemma_chain_snoc(
    q: QueryModel,
    input: Seq<u8>,
    in0: int,
    out0: int,
    frags: Seq<(Frag, Frag)>,
    p: (Frag, Frag),
    pos: int,
    m: Seq<u8>,
    rep: Seq<u8>,
)
    requires
        chain(q, input, in0, out0, frags),
        find_next_spec(q, input.subrange(in_end(in0, frags), input.len() as int)) == Some(
            (pos, m, rep),
        ),
        m.len() > 0,
        p.0 == (Frag { index: in_end(in0, frags) + pos, text: m }),
        p.1 == (Frag { index: out_end(out0, frags) + pos, text: rep }),
    ensures
        chain(q, input, in0, out0, frags.push(p)),
    decreases frags.len(),
{
    if frags.len() == 0 {
        assert(frags.push(p)[0] == p);
        assert(frags.push(p).drop_first() =~= Seq::<(Frag, Frag)>::empty());
        assert(frags.push(p).drop_first().len() == 0);
        assert(chain(
            q,
            input,
            in0 + pos + m.len(),
            out0 + pos + rep.len(),
            frags.push(p).drop_first(),
        ));
    } else {
        let f = frags[0];
        assert(frags.push(p)[0] == f);
        assert(frags.push(p).drop_first() =~= frags.drop_first().push(p));
        match find_next_spec(q, input.subrange(in0, input.len() as int)) {
            None => {
                assert(false);
            },
            Some((pos0, m0, rep0)) => {
                let in1 = in0 + pos0 + m0.len();
                let out1 = out0 + pos0 + rep0.len();
                assert(in_end(in1, frags.drop_first()) == in_end(in0, frags)) by {
                    if frags.len() > 1 {
                        assert(frags.drop_first().last() == frags.last());
                    }
                }
                assert(out_end(out1, frags.drop_first()) == out_end(out0, frags)) by {
                    if frags.len() > 1 {
                        assert(frags.drop_first().last() == frags.last());
                    }
                }
                lemma_chain_snoc(q, input, in1, out1, frags.drop_first(), p, pos, m, rep);
            },
        }
    }
}

/// Some pattern of the query occurs in `text` with nonzero width.
pub open spec fn some_pattern_occurs(q: QueryModel, text: Seq<u8>) -> bool {
    match q {
        QueryModel::Substring { pattern, .. } => occurs(text, pattern),
        QueryModel::Regex { source, .. } => match regex_find_of(source, text) {
            None => false,
            Some((pos, m)) => m.len() > 0,
        },
        QueryModel::Subvert { patterns, .. } => exists|j: int, i: int|
            0 <= j < patterns.len() && occurs_at(text, patterns[j], i),
    }
}

/// Idempotence of no-op: scanning a well-formed query stops immediately —
/// `replace` returns `None` — exactly when no pattern of the strategy
/// occurs anywhere in the input.
pub proof fn lemma_noop_iff_no_match(q: QueryModel, input: Seq<u8>)
    requires
        q.wf(),
    ensures
        stopped(q, input, 0) <==> !some_pattern_occurs(q, input),
{
    let whole = input.subrange(0, input.len() as int);
    assert(whole =~= input);
    match q {
        QueryModel::Substring { pattern, replacement } => {
            lemma_first_at_or_after(input, pattern, 0);
            match first_at_or_after(input, pattern, 0) {
                None => {
                    if occurs(input, pattern) {
                        let i = choose|i: int| occurs_at(input, pattern, i);
                        assert(!occurs_at(input, pattern, i));
                    }
                },
                Some(p) => {
                    assert(occurs(input, pattern));
                },
            }
        },
        QueryModel::Regex { source, template } => {},
        QueryModel::Subvert { patterns, replacements } => {
            lemma_best_candidate(input, patterns, 0);
            match best_candidate_from(input, patterns, 0) {
                None => {
                    if some_pattern_occurs(q, input) {
                        let (j, i) = choose|j: int, i: int|
                            0 <= j < patterns.len() && occurs_at(input, patterns[j], i);
                        assert(!occurs_at(input, patterns[j], i));
                    }
                },
                Some((p, idx)) => {
                    assert(occurs_at(input, patterns[idx], p));
                },
            }
        },
    }
}

/// Ask the query's strategy for the next match in the suffix of `input`
/// that starts at byte position `start`. Returns the match's byte position
/// within that suffix, the matched text and its replacement; the match's
/// span lies on character boundaries.
fn find_next_match(query: &Query, input: &str, bytes: &Vec<u8>, start: usize) -> (r: Option<
    (usize, String, String),
>)
    requires
        query.wf(),
        bytes@ == input.spec_bytes(),
        start <= bytes@.len(),
        is_char_boundary(input.spec_bytes(), start as int),
    ensures
        ({
            let text = input.spec_bytes();
            let suffix = text.subrange(start as int, text.len() as int);
            match r {
                None => find_next_spec(query@, suffix) is None,
                Some((pos, m, rep)) => {
                    &&& find_next_spec(query@, suffix) == Some(
                        (pos as int, encode_utf8(m@), encode_utf8(rep@)),
                    )
                    &&& start + pos + encode_utf8(m@).len() <= text.len()
                    &&& text.subrange(
                        start + pos,
                        start + pos + encode_utf8(m@).len() as int,
                    ) == encode_utf8(m@)
                    &&& is_char_boundary(text, start + pos)
                    &&& is_char_boundary(text, start + pos + encode_utf8(m@).len() as int)
                },
            }
        }),
{
    let ghost text = input.spec_bytes();
    let ghost suffix = text.subrange(start as int, text.len() as int);
    proof {
        encode_utf8_valid_utf8(input@);
    }
    match query {
        Query::Substring(pattern, replacement) => {
            let pat_bytes = pattern.as_str().as_bytes_vec();
            let found = find_in_bytes(bytes, start, &pat_bytes);
            proof {
                lemma_first_in_suffix(text, encode_utf8(pattern@), start as int);
            }
            match found {
                None => None,
                Some(abs) => {
                    proof {
                        lemma_first_at_or_after(text, encode_utf8(pattern@), start as int);
                        encode_utf8_valid_utf8(pattern@);
                        lemma_span_boundaries(text, encode_utf8(pattern@), abs as int);
                    }
                    let pos = abs - start;
                    Some((pos, pattern.clone(), replacement.clone()))
                },
            }
        },
        Query::Regex(handle, template) => {
            let (_, suffix_str) = input.split_at(start);
            match regex_find(handle, suffix_str) {
                None => None,
                Some((before, matched, after)) => {
                    let pos = byte_len(before.as_str());
                    let rep = regex_expand(handle, suffix_str, template.as_str());
                    proof {
                        let mb = encode_utf8(matched@);
                        let bb = encode_utf8(before@);
                        assert(suffix_str.spec_bytes() == suffix);
                        assert(suffix.len() == bb.len() + mb.len() + encode_utf8(after@).len());
                        encode_utf8_valid_utf8(before@);
                        encode_utf8_valid_utf8(matched@);
                        valid_utf8_concat(bb, mb);
                        valid_utf8_split(text, start as int);
                        assert(suffix.subrange(0, pos as int) =~= bb);
                        assert(suffix.subrange(0, pos + mb.len() as int) =~= bb + mb);
                        lemma_prefix_boundary(suffix, pos as int);
                        lemma_prefix_boundary(suffix, pos + mb.len() as int);
                        lemma_boundary_shift(text, start as int, pos as int);
                        lemma_boundary_shift(text, start as int, pos + mb.len() as int);
                        assert forall|t: int| 0 <= t < mb.len() implies text[start + pos + t]
                            == mb[t] by {
                            assert(suffix[pos + t] == (bb + mb + encode_utf8(after@))[pos + t]);
                            assert(suffix[pos + t] == text[start + pos + t]);
                        }
                        assert(text.subrange(start + pos, start + pos + mb.len() as int) =~= mb);
                    }
                    Some((pos, matched, rep))
                },
            }
        },
        Query::Subvert(patterns, replacements) => {
            let ghost patsdv = crate::encoding::all_bytes(patterns@);
            let mut best_pos: usize = 0;
            let mut best_idx: usize = 0;
            let mut found = false;
            let mut j: usize = 0;
            while j < patterns.len()
                invariant
                    bytes@ == input.spec_bytes(),
                    text == input.spec_bytes(),
                    start <= text.len(),
                    suffix == text.subrange(start as int, text.len() as int),
                    patsdv == crate::encoding::all_bytes(patterns@),
                    j <= patterns@.len(),
                    !found ==> forall|jj: int, q: int|
                        0 <= jj < j ==> !occurs_at(suffix, patsdv[jj], q),
                    found ==> best_idx < j,
                    found ==> occurs_at(suffix, patsdv[best_idx as int], best_pos as int),
                    found ==> forall|jj: int, q: int|
                        0 <= jj < j && q < best_pos ==> !occurs_at(suffix, patsdv[jj], q),
                    found ==> forall|jj: int|
                        0 <= jj < best_idx ==> !occurs_at(suffix, patsdv[jj], best_pos as int),
                decreases patterns@.len() - j,
            {
                let pat_j = patterns[j].as_str().as_bytes_vec();
                let found_j = find_in_bytes(bytes, start, &pat_j);
                proof {
                    assert(patsdv[j as int] == encode_utf8(patterns@[j as int]@));
                    lemma_first_in_suffix(text, patsdv[j as int], start as int);
                    lemma_first_at_or_after(suffix, patsdv[j as int], 0);
                }
                match found_j {
                    None => {},
                    Some(abs) => {
                        let rel = abs - start;
                        if !found || rel < best_pos {
                            best_pos = rel;
                            best_idx = j;
                            found = true;
                        }
                    },
                }
                j = j + 1;
            }
            if found {
                proof {
                    lemma_best_unique(suffix, patsdv, best_pos as int, best_idx as int);
                    assert(patsdv[best_idx as int] == encode_utf8(patterns@[best_idx as int]@));
                    assert(crate::encoding::all_bytes(replacements@)[best_idx as int]
                        == encode_utf8(replacements@[best_idx as int]@));
                    lemma_occurs_shift(text, patsdv[best_idx as int], start as int, best_pos
                        as int);
                    encode_utf8_valid_utf8(patterns@[best_idx as int]@);
                    lemma_span_boundaries(
                        text,
                        patsdv[best_idx as int],
                        start + best_pos as int,
                    );
                }
                let m = patterns[best_idx].clone();
                let rep = replacements[best_idx].clone();
                Some((best_pos, m, rep))
            } else {
                proof {
                    lemma_best_none(suffix, patsdv);
                }
                None
            }
        },
    }
}

/// Scan `input` with the query's strategy: accumulate every successive
/// non-overlapping match into a fragment list and reconstruct the output
/// string, advancing the input-space and output-space byte offsets
/// together.
///
/// Output offsets are read back from the string under construction, so
/// they always fit in `usize`.
fn scan(input: &str, bytes: &Vec<u8>, query: &Query) -> (res: (Fragments, String))
    requires
        query.wf(),
        bytes@ == input.spec_bytes(),
    ensures
        is_scan(query@, input.spec_bytes(), res.0@),
        frags_wf(input.spec_bytes(), res.0@),
        encode_utf8(res.1@) == materialize(input.spec_bytes(), res.0@),
        side_wf(encode_utf8(res.1@), output_frags(res.0@)),
{
    let ghost text = input.spec_bytes();
    let n = byte_len(input);
    let mut frags = Fragments::new();
    let mut output = String::new();
    let mut in_cur: usize = 0;
    proof {
        encode_utf8_valid_utf8(input@);
        assert(frags@ =~= Seq::<(Frag, Frag)>::empty());
        assert(input_frags(frags@) =~= Seq::<Frag>::empty());
        assert(encode_utf8(output@) =~= Seq::<u8>::empty());
    }
    loop
        invariant
            query.wf(),
            bytes@ == input.spec_bytes(),
            text == input.spec_bytes(),
            valid_utf8(text),
            n == text.len(),
            in_cur <= n,
            is_char_boundary(text, in_cur as int),
            chain(query@, text, 0, 0, frags@),
            in_end(0, frags@) == in_cur as int,
            out_end(0, frags@) == encode_utf8(output@).len(),
            frags_wf(text, frags@),
            encode_utf8(output@) == materialize_body(text, frags@, 0),
            forall|k: int|
                0 <= k < frags@.len() ==> frag_in_bounds(
                    encode_utf8(output@),
                    (#[trigger] frags@[k]).1,
                ),
        ensures
            text == input.spec_bytes(),
            n == text.len(),
            in_cur <= n,
            is_char_boundary(text, in_cur as int),
            chain(query@, text, 0, 0, frags@),
            in_end(0, frags@) == in_cur as int,
            out_end(0, frags@) == encode_utf8(output@).len(),
            frags_wf(text, frags@),
            encode_utf8(output@) == materialize_body(text, frags@, 0),
            forall|k: int|
                0 <= k < frags@.len() ==> frag_in_bounds(
                    encode_utf8(output@),
                    (#[trigger] frags@[k]).1,
                ),
            stopped(query@, text, in_cur as int),
        decreases n - in_cur,
    {
        let next = find_next_match(query, input, bytes, in_cur);
        match next {
            None => {
                break;
            },
            Some((pos, m, rep)) => {
                let m_len = byte_len(m.as_str());
                if m_len == 0 {
                    break;
                }
                let ghost frags0 = frags@;
                let ghost out0 = encode_utf8(output@);
                let ghost m_bytes = encode_utf8(m@);
                let ghost rep_bytes = encode_utf8(rep@);
                let abs = in_cur + pos;
                let (_, rest) = input.split_at(in_cur);
                proof {
                    assert(rest.spec_bytes() == text.subrange(in_cur as int, text.len() as int));
                    lemma_boundary_shift(text, in_cur as int, pos as int);
                }
                let (gap, _) = rest.split_at(pos);
                proof {
                    assert(gap.spec_bytes() =~= text.subrange(in_cur as int, abs as int));
                    lemma_encode_concat(output@, gap@);
                }
                output.append(gap);
                let out_idx = byte_len(output.as_str());
                frags.add((abs, m), (out_idx, rep.clone()));
                proof {
                    lemma_encode_concat(output@, rep@);
                }
                output.append(rep.as_str());
                in_cur = abs + m_len;
                proof {
                    let p = (
                        Frag { index: abs as int, text: m_bytes },
                        Frag { index: out_idx as int, text: rep_bytes },
                    );
                    assert(frags@ == frags0.push(p));
                    lemma_chain_snoc(query@, text, 0, 0, frags0, p, pos as int, m_bytes, rep_bytes);
                    assert(frags@.last() == p);
                    assert(in_end(0, frags@) == in_cur as int);
                    assert(out_end(0, frags@) == encode_utf8(output@).len());
                    assert(frag_in_bounds(text, p.0));
                    lemma_frags_wf_push(text, frags0, p);
                    lemma_body_snoc(text, frags0, 0, p);
                    assert(encode_utf8(output@) =~= materialize_body(text, frags0, 0)
                        + text.subrange(in_end(0, frags0), abs as int) + rep_bytes);
                    assert(out_idx + rep_bytes.len() <= encode_utf8(output@).len());
                    assert(encode_utf8(output@).subrange(
                        out_idx as int,
                        out_idx + rep_bytes.len() as int,
                    ) =~= rep_bytes);
                    assert forall|k: int| 0 <= k < frags@.len() implies frag_in_bounds(
                        encode_utf8(output@),
                        (#[trigger] frags@[k]).1,
                    ) by {
                        if k < frags0.len() {
                            assert(frags@[k] == frags0[k]);
                            assert(frag_in_bounds(out0, frags0[k].1));
                            assert(encode_utf8(output@).subrange(
                                frags0[k].1.index,
                                frags0[k].1.index + frags0[k].1.text.len() as int,
                            ) =~= out0.subrange(
                                frags0[k].1.index,
                                frags0[k].1.index + frags0[k].1.text.len() as int,
                            ));
                        } else {
                            assert(frags@[k] == p);
                        }
                    }
                }
            },
        }
    }
    let ghost out_before_tail = encode_utf8(output@);
    let (_, tail) = input.split_at(in_cur);
    proof {
        assert(tail.spec_bytes() == text.subrange(in_cur as int, text.len() as int));
        lemma_encode_concat(output@, tail@);
    }
    output.append(tail);
    proof {
        assert(encode_utf8(output@) == materialize(text, frags@));
        lemma_output_side_sorted(text, frags@);
        let side = output_frags(frags@);
        assert forall|k: int| 0 <= k < side.len() implies frag_in_bounds(
            encode_utf8(output@),
            #[trigger] side[k],
        ) by {
            assert(side[k] == frags@[k].1);
            assert(frag_in_bounds(out_before_tail, frags@[k].1));
            assert(encode_utf8(output@).subrange(
                frags@[k].1.index,
                frags@[k].1.index + frags@[k].1.text.len() as int,
            ) =~= out_before_tail.subrange(
                frags@[k].1.index,
                frags@[k].1.index + frags@[k].1.text.len() as int,
            ));
        }
        assert forall|k: int| 0 <= k < side.len() - 1 implies #[trigger] side[k].index
            + side[k].text.len() <= side[k + 1].index by {
            assert(side[k] == frags@[k].1);
            assert(side[k + 1] == frags@[k + 1].1);
        }
    }
    (frags, output)
}

/// The result of one scan that found at least one match: the fragment
/// list, a reference to the scanned input, and the reconstructed output.
/// It holds a reference to the input, so it must not outlive it.
pub struct Replacement<'a> {
    fragments: Fragments,
    input: &'a str,
    output: String,
}

impl<'a> Replacement<'a> {
    /// The fragment pairs this replacement records.
    pub closed spec fn frags(self) -> Seq<(Frag, Frag)> {
        self.fragments@
    }

    /// The characters of the input that was scanned.
    pub closed spec fn input_view(self) -> Seq<char> {
        self.input@
    }

    /// The characters of the reconstructed output.
    pub closed spec fn output_view(self) -> Seq<char> {
        self.output@
    }

    /// The UTF-8 bytes of the input that was scanned.
    pub open spec fn input_bytes(self) -> Seq<u8> {
        encode_utf8(self.input_view())
    }

    /// The UTF-8 bytes of the reconstructed output.
    pub open spec fn output_bytes(self) -> Seq<u8> {
        encode_utf8(self.output_view())
    }

    /// The final text, with every match replaced.
    pub fn output(&self) -> (r: &str)
        ensures
            r@ == self.output_view(),
            r.spec_bytes() == self.output_bytes(),
    {
        self.output.as_str()
    }

    /// The input that was scanned.
    pub fn input(&self) -> (r: &str)
        ensures
            r@ == self.input_view(),
            r.spec_bytes() == self.input_bytes(),
    {
        self.input
    }

    /// The list of (input span, output span) pairs describing every change.
    pub fn fragments(&self) -> (r: &Fragments)
        ensures
            r@ == self.frags(),
    {
        &self.fragments
    }

    /// The two lines of a before/after view, each prefixed by
    /// `context_label`: the scanned input after a removal marker, and the
    /// reconstructed output after an addition marker. Highlighting the
    /// changed spans is the display collaborator's business, not the
    /// core's.
    pub fn render_diff(&self, context_label: &str) -> (r: (String, String))
        ensures
            r.0@ == context_label@ + " --- "@ + self.input_view(),
            r.1@ == context_label@ + " +++ "@ + self.output_view(),
    {
        let mut before = String::from_str(context_label);
        before.append(" --- ");
        before.append(self.input);
        let mut after = String::from_str(context_label);
        after.append(" +++ ");
        after.append(self.output.as_str());
        proof {
            assert(before@ =~= context_label@ + " --- "@ + self.input_view());
            assert(after@ =~= context_label@ + " +++ "@ + self.output_view());
        }
        (before, after)
    }
}

/// Execute `query` on one buffer of input. Returns `None` exactly when the
/// strategy found nothing to replace; otherwise the returned replacement
/// carries the complete scan: its fragment list is the sequence of
/// successive leftmost matches, ordered and non-overlapping, with byte
/// offsets into input and output, and its output is the input with every
/// matched span replaced.
pub fn replace<'a>(input: &'a str, query: &Query) -> (r: Option<Replacement<'a>>)
    requires
        query.wf(),
    ensures
        r is None <==> stopped(query@, input.spec_bytes(), 0),
        match r {
            None => true,
            Some(rep) => {
                &&& rep.input_view() == input@
                &&& rep.input_bytes() == input.spec_bytes()
                &&& rep.frags().len() > 0
                &&& is_scan(query@, rep.input_bytes(), rep.frags())
                &&& frags_wf(rep.input_bytes(), rep.frags())
                &&& rep.output_bytes() == materialize(rep.input_bytes(), rep.frags())
                &&& side_wf(rep.output_bytes(), output_frags(rep.frags()))
            },
        },
{
    let bytes = input.as_bytes_vec();
    let (fragments, output) = scan(input, &bytes, query);
    if fragments.is_empty() {
        proof {
            assert(in_end(0, fragments@) == 0);
        }
        return None;
    }
    proof {
        assert(fragments@.len() > 0);
        if stopped(query@, input.spec_bytes(), 0) {
            assert(chain(query@, input.spec_bytes(), 0, 0, fragments@));
            assert(false);
        }
    }
    Some(Replacement { fragments, input, output })
}

} // verus!
