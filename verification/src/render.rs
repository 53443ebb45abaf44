use vstd::prelude::*;
use crate::color::Color;
use crate::segment::Segment;
use crate::registry::Registry;

verus! {

/// Every segment of the sequence is well formed.
pub open spec fn wf_all(es: Seq<(Seq<char>, Segment)>) -> bool {
    forall|i: int| 0 <= i < es.len() ==> (#[trigger] es[i]).1.wf()
}

/// Total number of pixels the segments cover.
pub open spec fn total_len(es: Seq<(Seq<char>, Segment)>) -> int
    decreases es.len(),
{
    if es.len() == 0 {
        0
    } else {
        total_len(es.drop_last()) + es.last().1.length
    }
}

/// First pixel index of segment `i`: the sum of the lengths of the segments
/// before it, in registry order.
pub open spec fn offset_of(es: Seq<(Seq<char>, Segment)>, i: int) -> int {
    total_len(es.subrange(0, i))
}

/// The pixel range of each segment starts where the previous one ended.
pub proof fn lemma_offset_step(es: Seq<(Seq<char>, Segment)>, i: int)
    requires
        0 <= i < es.len(),
    ensures
        offset_of(es, i + 1) == offset_of(es, i) + es[i].1.length,
{
    assert(es.subrange(0, i + 1).drop_last() =~= es.subrange(0, i));
}

/// Segment offsets never pass the total length.
pub proof fn lemma_offset_le_total(es: Seq<(Seq<char>, Segment)>, i: int)
    requires
        0 <= i <= es.len(),
    ensures
        0 <= offset_of(es, i) <= total_len(es),
    decreases es.len() - i,
{
    if i == es.len() {
        assert(es.subrange(0, i) =~= es);
        lemma_offset_nonneg(es.subrange(0, i));
    } else {
        lemma_offset_step(es, i);
        lemma_offset_le_total(es, i + 1);
        lemma_offset_nonneg(es.subrange(0, i));
    }
}

/// Offsets grow with the segment index.
pub proof fn lemma_offset_mono(es: Seq<(Seq<char>, Segment)>, a: int, b: int)
    requires
        0 <= a <= b <= es.len(),
    ensures
        offset_of(es, a) <= offset_of(es, b),
    decreases b - a,
{
    if a < b {
        lemma_offset_step(es, a);
        lemma_offset_mono(es, a + 1, b);
    }
}

proof fn lemma_offset_nonneg(es: Seq<(Seq<char>, Segment)>)
    ensures
        total_len(es) >= 0,
    decreases es.len(),
{
    if es.len() > 0 {
        lemma_offset_nonneg(es.drop_last());
    }
}

/// One render tick's frame composition: walk the snapshot in order, compute
/// each segment's color once for this tick, and expand it across the
/// segment's contiguous pixel range, paired with the segment's brightness.
/// The frame covers exactly the pixels the segments own; clipping to the
/// physical strip length is the pixel sink's responsibility.
pub fn compose_frame(reg: &Registry, now: u64) -> (frame: Vec<(Color, u8)>)
    requires
        wf_all(reg@),
        total_len(reg@) <= usize::MAX,
    ensures
        frame@.len() == total_len(reg@),
        forall|i: int, p: int|
            0 <= i < reg@.len() && offset_of(reg@, i) <= p < offset_of(reg@, i)
                + (#[trigger] reg@[i]).1.length ==> #[trigger] frame@[p] == (
            reg@[i].1.spec_color_at(now as nat),
            reg@[i].1.brightness,
        ),
{
    let n = reg.len();
    let mut frame: Vec<(Color, u8)> = Vec::new();
    let mut i: usize = 0;
    proof {
        assert(reg@.subrange(0, 0) =~= Seq::<(Seq<char>, Segment)>::empty());
        assert forall|k: int| 0 <= k <= n implies 0 <= #[trigger] offset_of(reg@, k) by {
            lemma_offset_le_total(reg@, k);
        }
    }
    while i < n
        invariant
            n == reg@.len(),
            i <= n,
            wf_all(reg@),
            total_len(reg@) <= usize::MAX,
            forall|k: int| 0 <= k <= n ==> 0 <= #[trigger] offset_of(reg@, k),
            frame@.len() == offset_of(reg@, i as int),
            forall|k: int, p: int|
                0 <= k < i && offset_of(reg@, k) <= p < offset_of(reg@, k)
                    + (#[trigger] reg@[k]).1.length ==> #[trigger] frame@[p] == (
                reg@[k].1.spec_color_at(now as nat),
                reg@[k].1.brightness,
            ),
        decreases n - i,
    {
        let e = reg.entry_at(i);
        let seg = e.1;
        let color = seg.color_at(now);
        proof {
            lemma_offset_step(reg@, i as int);
            lemma_offset_le_total(reg@, i as int + 1);
            assert forall|k: int| 0 <= k < i implies offset_of(reg@, k) + (
            #[trigger] reg@[k]).1.length <= offset_of(reg@, i as int) by {
                lemma_offset_step(reg@, k);
                lemma_offset_mono(reg@, k + 1, i as int);
            }
        }
        let mut j: u32 = 0;
        while j < seg.length
            invariant
                j <= seg.length,
                seg == reg@[i as int].1,
                i < reg@.len(),
                color == seg.spec_color_at(now as nat),
                offset_of(reg@, i as int) + seg.length <= usize::MAX,
                n == reg@.len(),
                i < n,
                forall|k: int| 0 <= k <= n ==> 0 <= #[trigger] offset_of(reg@, k),
                frame@.len() == offset_of(reg@, i as int) + j,
                forall|k: int|
                    0 <= k < i ==> offset_of(reg@, k) + (#[trigger] reg@[k]).1.length <= offset_of(
                        reg@,
                        i as int,
                    ),
                forall|k: int, p: int|
                    0 <= k < i && offset_of(reg@, k) <= p < offset_of(reg@, k)
                        + (#[trigger] reg@[k]).1.length ==> #[trigger] frame@[p] == (
                    reg@[k].1.spec_color_at(now as nat),
                    reg@[k].1.brightness,
                ),
                forall|p: int|
                    offset_of(reg@, i as int) <= p < offset_of(reg@, i as int) + j
                        ==> #[trigger] frame@[p] == (
                    seg.spec_color_at(now as nat),
                    seg.brightness,
                ),
            decreases seg.length - j,
        {
            let ghost pre = frame@;
            frame.push((color, seg.brightness));
            proof {
                let ghost off = offset_of(reg@, i as int);
                assert(frame@ == pre.push((color, seg.brightness)));
                assert(frame@.len() == off + j + 1);
                assert(frame@[off + j] == (seg.spec_color_at(now as nat), seg.brightness));
                assert forall|p: int| off <= p < off + j + 1 implies frame@[p] == (
                seg.spec_color_at(now as nat),
                seg.brightness,
                ) by {
                    if p < off + j {
                        assert(frame@[p] == pre[p]);
                    }
                }
            }
            j = j + 1;
        }
        i = i + 1;
    }
    proof {
        assert(reg@.subrange(0, n as int) =~= reg@);
    }
    frame
}

} // verus!
