use vstd::prelude::*;

use crate::arith::{abs, tdiv};
use crate::bleeps::{position_views, CensoringPosition};
use crate::frames::FrameQueue;
use crate::noise::{
    first_sample, in_bleep, in_spans, lemma_paint_all, lemma_spans_are_bleep_ranges, noise_spans,
    paint_all, span_views, span_within, spans_for, NoiseSpan,
};

verus! {

proof fn lemma_tdiv_cancel(x: int, r: int)
    requires
        r != 0,
    ensures
        tdiv(x * r, r) == x,
{
    assert(abs(x * r) == abs(x) * abs(r)) by (nonlinear_arith)
        requires
            r != 0,
    {
        if x >= 0 && r > 0 {
        } else if x >= 0 {
            assert(x * r == -(x * (-r)));
        } else if r > 0 {
            assert(x * r == -((-x) * r));
        } else {
            assert(x * r == (-x) * (-r));
        }
    }
    assert((abs(x) * abs(r)) / abs(r) == abs(x)) by (nonlinear_arith)
        requires
            abs(r) > 0,
            abs(x) >= 0,
    ;
    assert(x * r < 0 <==> (x < 0) != (r < 0) && x != 0) by (nonlinear_arith)
        requires
            r != 0,
    ;
}

/// Takes the next whole frame of the queue together with the spans of it that are to get
/// noise, for audio in the time base `1/rate` (a frame's stamp is the stream position of its
/// first sample). The spans are those of `noise_spans` for the frame; sample `i` of the
/// frame lies in a span exactly when stream sample `pts + i` lies in the bleep range of a
/// censored position.
pub fn next_frame<T: Copy>(
    queue: &mut FrameQueue<T>,
    censored: &Vec<CensoringPosition>,
    rate: i32,
) -> (res: Option<(i64, Vec<Vec<T>>, Vec<NoiseSpan>)>)
    requires
        old(queue).wf(),
        rate != 0,
        old(queue).waiting() >= old(queue).spec_frame_size() ==> old(queue).spec_next_pts()
            + old(queue).spec_frame_size() <= i64::MAX,
    ensures
        final(queue).wf(),
        final(queue).channels().len() == old(queue).channels().len(),
        final(queue).spec_frame_size() == old(queue).spec_frame_size(),
        forall|c: int|
            0 <= c < old(queue).channels().len() ==> #[trigger] final(queue).stream(c) == old(
                queue,
            ).stream(c),
        old(queue).waiting() < old(queue).spec_frame_size() ==> {
            &&& res is None
            &&& final(queue).channels() == old(queue).channels()
            &&& final(queue).spec_next_pts() == old(queue).spec_next_pts()
        },
        old(queue).waiting() >= old(queue).spec_frame_size() ==> (res matches Some(
            (pts, frame, spans),
        ) && {
            let f = old(queue).spec_frame_size() as int;
            let ps = position_views(censored@);
            &&& pts == old(queue).spec_next_pts()
            &&& final(queue).spec_next_pts() == pts + f
            &&& frame@.len() == old(queue).channels().len()
            &&& forall|c: int|
                0 <= c < frame@.len() ==> {
                    &&& (#[trigger] frame@[c])@ == old(queue).stream(c).subrange(pts as int, pts + f)
                    &&& frame@[c]@ == old(queue).channels()[c].take(f)
                    &&& final(queue).channels()[c] == old(queue).channels()[c].skip(f)
                }
            &&& span_views(spans@) == spans_for(pts as int, f, rate as int, ps)
            &&& forall|k: int| 0 <= k < spans@.len() ==> span_within(#[trigger] spans@[k], f as usize)
            &&& forall|i: int|
                0 <= i < f ==> (in_spans(span_views(spans@), i) <==> #[trigger] in_bleep(
                    pts + i,
                    rate as int,
                    ps,
                ))
        }),
{
    let popped = queue.pop_frame();
    match popped {
        None => None,
        Some((pts, frame)) => {
            let f = queue.frame_size();
            let spans = noise_spans(Some(pts), 1, rate, f, rate, censored);
            proof {
                lemma_tdiv_cancel(pts as int, rate as int);
                assert(first_sample(pts as int, 1, rate as int, rate as int) == pts);
                lemma_spans_are_bleep_ranges(pts as int, f as int, rate as int, position_views(censored@));
            }
            Some((pts, frame, spans))
        },
    }
}

/// What the encoder is fed for a frame: every sample outside the bleep ranges is the
/// stream's own sample at that position, and where nothing is censored the frame is the
/// stream's samples unchanged.
pub proof fn lemma_censored_frame<T>(
    stream: Seq<T>,
    pts: int,
    f: int,
    rate: int,
    ps: Seq<(Seq<char>, int, int)>,
    noise: Seq<Seq<T>>,
)
    requires
        0 <= pts,
        pts + f <= stream.len(),
        0 <= f,
        noise.len() == spans_for(pts, f, rate, ps).len(),
    ensures
        ({
            let fed = paint_all(stream.subrange(pts, pts + f), spans_for(pts, f, rate, ps), noise);
            &&& fed.len() == f
            &&& forall|i: int|
                0 <= i < f && !in_bleep(pts + i, rate, ps) ==> #[trigger] fed[i] == stream[pts + i]
        }),
        ps.len() == 0 ==> paint_all(stream.subrange(pts, pts + f), spans_for(pts, f, rate, ps), noise)
            == stream.subrange(pts, pts + f),
{
    let plane = stream.subrange(pts, pts + f);
    lemma_paint_all(plane, spans_for(pts, f, rate, ps), noise);
    lemma_spans_are_bleep_ranges(pts, f, rate, ps);
    if ps.len() == 0 {
        assert(spans_for(pts, f, rate, ps).len() == 0);
    }
}

} // verus!
