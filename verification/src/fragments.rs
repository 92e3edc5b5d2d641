//! Fragment bookkeeping: the ordered, non-overlapping list of matched-span
//! pairs that one scan produces. Both the reconstructed output string and
//! the diff rendering are derived from it.

use vstd::prelude::*;
use vstd::utf8::encode_utf8;

verus! {

/// The mathematical content of one fragment: a byte offset and the UTF-8
/// bytes of the text standing there.
pub struct Frag {
    pub index: int,
    pub text: Seq<u8>,
}

/// One matched or replaced span: a byte offset into its own string, and
/// the text of the span. A fragment owns its text as a copy; it does not
/// borrow from the buffer that was scanned.
pub struct Fragment {
    pub index: usize,
    pub text: String,
}

impl View for Fragment {
    type V = Frag;

    open spec fn view(&self) -> Frag {
        Frag { index: self.index as int, text: encode_utf8(self.text@) }
    }
}

/// The ordered list of (input fragment, output fragment) pairs of one scan.
pub struct Fragments {
    pairs: Vec<(Fragment, Fragment)>,
}

/// The fragment `f` lies within `text` and its copy of the span is exact.
pub open spec fn frag_in_bounds(text: Seq<u8>, f: Frag) -> bool {
    &&& 0 <= f.index
    &&& f.index + f.text.len() <= text.len()
    &&& text.subrange(f.index, f.index + f.text.len() as int) == f.text
}

/// The input fragments of `frags`.
pub open spec fn input_frags(frags: Seq<(Frag, Frag)>) -> Seq<Frag> {
    frags.map(|_i: int, p: (Frag, Frag)| p.0)
}

/// The output fragments of `frags`.
pub open spec fn output_frags(frags: Seq<(Frag, Frag)>) -> Seq<Frag> {
    frags.map(|_i: int, p: (Frag, Frag)| p.1)
}

/// One side of a fragment list is well formed against the string it
/// describes: every span lies within the string, copies it exactly, and
/// the spans are ordered and non-overlapping.
pub open spec fn side_wf(text: Seq<u8>, side: Seq<Frag>) -> bool {
    &&& forall|k: int| 0 <= k < side.len() ==> frag_in_bounds(text, #[trigger] side[k])
    &&& forall|k: int|
        0 <= k < side.len() - 1 ==> #[trigger] side[k].index + side[k].text.len() <= side[
            k + 1
        ].index
}

/// A fragment-pair list is well formed against the input it was scanned
/// from: the input side is well formed, every match is nonempty, and the
/// output positions keep exactly the gaps the input positions have.
pub open spec fn frags_wf(input: Seq<u8>, frags: Seq<(Frag, Frag)>) -> bool {
    &&& side_wf(input, input_frags(frags))
    &&& forall|k: int| 0 <= k < frags.len() ==> (#[trigger] frags[k]).0.text.len() > 0
    &&& frags.len() > 0 ==> frags[0].1.index == frags[0].0.index
    &&& forall|k: int|
        0 <= k < frags.len() - 1 ==> (#[trigger] frags[k + 1]).1.index - (frags[k].1.index
            + frags[k].1.text.len()) == frags[k + 1].0.index - (frags[k].0.index
            + frags[k].0.text.len())
}

/// The position just after the last input fragment, or `cur` if there is
/// none.
pub open spec fn in_end(cur: int, frags: Seq<(Frag, Frag)>) -> int {
    if frags.len() == 0 {
        cur
    } else {
        frags.last().0.index + frags.last().0.text.len()
    }
}

/// The position just after the last output fragment, or `cur` if there is
/// none.
pub open spec fn out_end(cur: int, frags: Seq<(Frag, Frag)>) -> int {
    if frags.len() == 0 {
        cur
    } else {
        frags.last().1.index + frags.last().1.text.len()
    }
}

/// The output text contributed by `frags` starting at input position `cur`:
/// each untouched gap of the input followed by the replacement text, without
/// the trailing input tail.
pub open spec fn materialize_body(input: Seq<u8>, frags: Seq<(Frag, Frag)>, cur: int) -> Seq<
    u8,
>
    decreases frags.len(),
{
    if frags.len() == 0 {
        Seq::empty()
    } else {
        input.subrange(cur, frags[0].0.index) + frags[0].1.text + materialize_body(
            input,
            frags.drop_first(),
            frags[0].0.index + frags[0].0.text.len(),
        )
    }
}

/// The output string of a scan: the untouched input around each match,
/// with every matched span replaced by its output fragment's text.
pub open spec fn materialize(input: Seq<u8>, frags: Seq<(Frag, Frag)>) -> Seq<u8> {
    materialize_body(input, frags, 0) + input.subrange(in_end(0, frags), input.len() as int)
}

/// Reassembly of one side: the gaps of `text` interleaved with the
/// fragments' own copies of their spans, from position `cur` on.
pub open spec fn reassemble_from(text: Seq<u8>, side: Seq<Frag>, cur: int) -> Seq<u8>
    decreases side.len(),
{
    if side.len() == 0 {
        text.subrange(cur, text.len() as int)
    } else {
        text.subrange(cur, side[0].index) + side[0].text + reassemble_from(
            text,
            side.drop_first(),
            side[0].index + side[0].text.len(),
        )
    }
}

/// Round trip of untouched spans: concatenating the gaps of `text` with the
/// fragments' span copies reconstructs `text` exactly. Applied to the input
/// side of a scan this rebuilds the input; applied to the output side it
/// rebuilds the output.
pub proof fn lemma_round_trip(text: Seq<u8>, side: Seq<Frag>)
    requires
        side_wf(text, side),
    ensures
        reassemble_from(text, side, 0) == text,
{
    lemma_reassemble_from(text, side, 0);
    assert(text.subrange(0, text.len() as int) =~= text);
}

proof fn lemma_reassemble_from(text: Seq<u8>, side: Seq<Frag>, cur: int)
    requires
        side_wf(text, side),
        0 <= cur <= text.len(),
        side.len() > 0 ==> cur <= side[0].index,
    ensures
        reassemble_from(text, side, cur) == text.subrange(cur, text.len() as int),
    decreases side.len(),
{
    if side.len() == 0 {
    } else {
        let f = side[0];
        let rest = side.drop_first();
        assert(frag_in_bounds(text, side[0]));
        assert forall|k: int| 0 <= k < rest.len() implies frag_in_bounds(
            text,
            #[trigger] rest[k],
        ) && (k < rest.len() - 1 ==> rest[k].index + rest[k].text.len() <= rest[k + 1].index) by {
            assert(rest[k] == side[k + 1]);
            if k < rest.len() - 1 {
                assert(rest[k + 1] == side[k + 2]);
            }
        }
        if rest.len() > 0 {
            assert(rest[0] == side[1]);
        }
        lemma_reassemble_from(text, rest, f.index + f.text.len());
        assert(text.subrange(cur, text.len() as int) =~= text.subrange(cur, f.index)
            + text.subrange(f.index, f.index + f.text.len() as int) + text.subrange(
            f.index + f.text.len(),
            text.len() as int,
        ));
    }
}

/// Round trip of untouched spans for one completed scan, as `replace`
/// guarantees it: the gaps of the input interleaved with the input
/// fragments' texts rebuild the input, and the gaps of the output
/// interleaved with the output fragments' texts rebuild the output.
pub proof fn lemma_replacement_round_trip(
    input: Seq<u8>,
    output: Seq<u8>,
    frags: Seq<(Frag, Frag)>,
)
    requires
        frags_wf(input, frags),
        side_wf(output, output_frags(frags)),
    ensures
        reassemble_from(input, input_frags(frags), 0) == input,
        reassemble_from(output, output_frags(frags), 0) == output,
{
    lemma_round_trip(input, input_frags(frags));
    lemma_round_trip(output, output_frags(frags));
}

/// Appending a pair that starts at or after the end of `frags` extends the
/// materialized body by the gap before it and its replacement text.
pub proof fn lemma_body_snoc(input: Seq<u8>, frags: Seq<(Frag, Frag)>, cur: int, p: (Frag, Frag))
    requires
        in_end(cur, frags) <= p.0.index,
    ensures
        materialize_body(input, frags.push(p), cur) == materialize_body(input, frags, cur)
            + input.subrange(in_end(cur, frags), p.0.index) + p.1.text,
    decreases frags.len(),
{
    if frags.len() == 0 {
        let fp = frags.push(p);
        assert(fp[0] == p);
        assert(fp.drop_first() =~= Seq::<(Frag, Frag)>::empty());
        assert(materialize_body(input, fp.drop_first(), p.0.index + p.0.text.len())
            == Seq::<u8>::empty());
        assert(materialize_body(input, fp, cur) == input.subrange(cur, fp[0].0.index)
            + fp[0].1.text + materialize_body(
            input,
            fp.drop_first(),
            fp[0].0.index + fp[0].0.text.len(),
        ));
        assert(materialize_body(input, frags, cur) == Seq::<u8>::empty());
        assert(materialize_body(input, fp, cur) =~= materialize_body(input, frags, cur)
            + input.subrange(cur, p.0.index) + p.1.text);
    } else {
        let f = frags[0];
        assert(frags.push(p)[0] == f);
        assert(frags.push(p).drop_first() =~= frags.drop_first().push(p));
        assert(in_end(f.0.index + f.0.text.len(), frags.drop_first()) == in_end(cur, frags)) by {
            if frags.len() > 1 {
                assert(frags.drop_first().last() == frags.last());
            }
        }
        lemma_body_snoc(input, frags.drop_first(), f.0.index + f.0.text.len(), p);
        assert(materialize_body(input, frags.push(p), cur) =~= materialize_body(input, frags, cur)
            + input.subrange(in_end(cur, frags), p.0.index) + p.1.text);
    }
}

/// Extending a well-formed fragment-pair list by one nonempty pair that
/// starts at or after its end, with the output position keeping the same
/// gap, keeps it well formed.
pub proof fn lemma_frags_wf_push(input: Seq<u8>, frags: Seq<(Frag, Frag)>, p: (Frag, Frag))
    requires
        frags_wf(input, frags),
        frag_in_bounds(input, p.0),
        p.0.text.len() > 0,
        in_end(0, frags) <= p.0.index,
        p.1.index == out_end(0, frags) + (p.0.index - in_end(0, frags)),
    ensures
        frags_wf(input, frags.push(p)),
{
    let fp = frags.push(p);
    let side = input_frags(frags);
    let side_p = input_frags(fp);
    assert(side_p =~= side.push(p.0));
    assert forall|k: int| 0 <= k < side_p.len() implies frag_in_bounds(
        input,
        #[trigger] side_p[k],
    ) by {
        if k < side.len() {
            assert(side_p[k] == side[k]);
            assert(frag_in_bounds(input, side[k]));
        } else {
            assert(side_p[k] == p.0);
        }
    }
    assert forall|k: int| 0 <= k < side_p.len() - 1 implies #[trigger] side_p[k].index
        + side_p[k].text.len() <= side_p[k + 1].index by {
        if k < side.len() - 1 {
            assert(side_p[k] == side[k]);
            assert(side_p[k + 1] == side[k + 1]);
            assert(side[k].index + side[k].text.len() <= side[k + 1].index);
        } else {
            assert(side_p[k] == frags.last().0);
            assert(side_p[k + 1] == p.0);
        }
    }
    assert forall|k: int| 0 <= k < fp.len() implies (#[trigger] fp[k]).0.text.len() > 0 by {
        if k < frags.len() {
            assert(fp[k] == frags[k]);
        } else {
            assert(fp[k] == p);
        }
    }
    assert forall|k: int| 0 <= k < fp.len() - 1 implies (#[trigger] fp[k + 1]).1.index - (fp[
        k
    ].1.index + fp[k].1.text.len()) == fp[k + 1].0.index - (fp[k].0.index
        + fp[k].0.text.len()) by {
        if k < frags.len() - 1 {
            assert(fp[k] == frags[k]);
            assert(fp[k + 1] == frags[k + 1]);
            assert(frags[k + 1].1.index - (frags[k].1.index + frags[k].1.text.len()) == frags[
                k + 1
            ].0.index - (frags[k].0.index + frags[k].0.text.len()));
        } else {
            assert(fp[k] == frags.last());
            assert(fp[k + 1] == p);
        }
    }
    if frags.len() > 0 {
        assert(fp[0] == frags[0]);
    }
}

/// The output positions of a well-formed fragment-pair list are ordered and
/// non-overlapping, mirroring the input positions.
pub proof fn lemma_output_side_sorted(input: Seq<u8>, frags: Seq<(Frag, Frag)>)
    requires
        frags_wf(input, frags),
    ensures
        forall|k: int|
            0 <= k < frags.len() - 1 ==> (#[trigger] frags[k]).1.index + frags[k].1.text.len()
                <= frags[k + 1].1.index,
{
    let side = input_frags(frags);
    assert forall|k: int| 0 <= k < frags.len() - 1 implies (#[trigger] frags[k]).1.index + frags[
        k
    ].1.text.len() <= frags[k + 1].1.index by {
        assert(side[k] == frags[k].0);
        assert(side[k + 1] == frags[k + 1].0);
        assert(side[k].index + side[k].text.len() <= side[k + 1].index);
        assert(frags[k + 1].1.index - (frags[k].1.index + frags[k].1.text.len()) == frags[
            k + 1
        ].0.index - (frags[k].0.index + frags[k].0.text.len()));
    }
}

impl View for Fragments {
    type V = Seq<(Frag, Frag)>;

    closed spec fn view(&self) -> Seq<(Frag, Frag)> {
        self.pairs@.map(|_i: int, p: (Fragment, Fragment)| (p.0@, p.1@))
    }
}

impl Fragments {
    /// An empty fragment list.
    pub fn new() -> (r: Fragments)
        ensures
            r@ == Seq::<(Frag, Frag)>::empty(),
    {
        let r = Fragments { pairs: Vec::new() };
        proof {
            assert(r@ =~= Seq::<(Frag, Frag)>::empty());
        }
        r
    }

    /// Whether no match was recorded.
    pub fn is_empty(&self) -> (r: bool)
        ensures
            r == (self@.len() == 0),
    {
        self.pairs.len() == 0
    }

    /// The number of recorded matches.
    pub fn len(&self) -> (n: usize)
        ensures
            n == self@.len(),
    {
        self.pairs.len()
    }

    /// The `i`-th pair of input and output fragment.
    pub fn pair(&self, i: usize) -> (p: &(Fragment, Fragment))
        requires
            i < self@.len(),
        ensures
            p.0@ == self@[i as int].0,
            p.1@ == self@[i as int].1,
    {
        &self.pairs[i]
    }

    /// Record one match: the matched input span and the replacing output
    /// span.
    pub fn add(&mut self, input: (usize, String), output: (usize, String))
        ensures
            final(self)@ == old(self)@.push(
                (
                    Frag { index: input.0 as int, text: encode_utf8(input.1@) },
                    Frag { index: output.0 as int, text: encode_utf8(output.1@) },
                ),
            ),
    {
        let input_fragment = Fragment { index: input.0, text: input.1 };
        let output_fragment = Fragment { index: output.0, text: output.1 };
        let ghost before = self@;
        self.pairs.push((input_fragment, output_fragment));
        proof {
            assert(self@ =~= before.push(
                (
                    Frag { index: input.0 as int, text: encode_utf8(input.1@) },
                    Frag { index: output.0 as int, text: encode_utf8(output.1@) },
                ),
            ));
        }
    }
}

} // verus!
