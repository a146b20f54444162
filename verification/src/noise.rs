use vstd::prelude::*;

use crate::arith::{tdiv, trunc_div};
use crate::bleeps::{position_views, CensoringPosition};

verus! {

/// An inclusive run of sample indices of one frame, `first..=last`, to be covered by noise
/// (in every channel of the frame).
#[derive(Clone, Copy, Debug, PartialEq, Eq, Structural)]
pub struct NoiseSpan {
    pub first: usize,
    pub last: usize,
}

impl View for NoiseSpan {
    type V = (int, int);

    open spec fn view(&self) -> (int, int) {
        (self.first as int, self.last as int)
    }
}

/// A span lies within a frame of `nb` samples.
pub open spec fn span_within(s: NoiseSpan, nb: usize) -> bool {
    s.first <= s.last < nb
}

pub open spec fn span_views(spans: Seq<NoiseSpan>) -> Seq<(int, int)> {
    spans.map_values(|s: NoiseSpan| s@)
}

/// Sample index `i` lies in one of the spans.
pub open spec fn in_spans(spans: Seq<(int, int)>, i: int) -> bool {
    exists|m: int| 0 <= m < spans.len() && (#[trigger] spans[m]).0 <= i <= spans[m].1
}

pub open spec fn max(a: int, b: int) -> int {
    if a >= b {
        a
    } else {
        b
    }
}

pub open spec fn min(a: int, b: int) -> int {
    if a <= b {
        a
    } else {
        b
    }
}

/// The sample at which a time of `ms` milliseconds falls at `rate` samples per second:
/// `int(ms / 1000 * rate)`, rounded toward zero.
pub open spec fn sample_at(ms: int, rate: int) -> int {
    tdiv(ms * rate, 1000)
}

/// The position in the stream (in samples) of a frame's first sample, whose timestamp is
/// `pts` in the time base `num/den`, at `rate` samples per second. Where the time base is
/// `1/rate`, this is `pts` itself.
pub open spec fn first_sample(pts: int, num: int, den: int, rate: int) -> int {
    tdiv(pts * num * rate, den)
}

/// The samples of a frame of `nb` samples whose first sample sits at stream position `s`
/// that a stretch from `cs` to `ce` milliseconds covers: the stream samples
/// `sample_at(cs) .. sample_at(ce)` (end excluded), clamped to the frame, as indices into
/// the frame; none where that leaves nothing.
pub open spec fn covered(s: int, nb: int, rate: int, cs: int, ce: int) -> Option<(int, int)> {
    let first = max(sample_at(cs, rate) - s, 0);
    let end = min(sample_at(ce, rate) - s, nb);
    if first < end {
        Some((first, end - 1))
    } else {
        None
    }
}

/// The spans of a frame, one for each position (in order) that covers some of its samples.
pub open spec fn spans_for(s: int, nb: int, rate: int, ps: Seq<(Seq<char>, int, int)>) -> Seq<
    (int, int),
>
    decreases ps.len(),
{
    if ps.len() == 0 {
        seq![]
    } else {
        let rest = spans_for(s, nb, rate, ps.drop_last());
        match covered(s, nb, rate, ps.last().1, ps.last().2) {
            Some(span) => rest.push(span),
            None => rest,
        }
    }
}

/// The spans of a frame with timestamp `pts` (none if it has no timestamp).
pub open spec fn frame_spans(
    pts: Option<i64>,
    num: i32,
    den: i32,
    nb: usize,
    rate: i32,
    ps: Seq<(Seq<char>, int, int)>,
) -> Seq<(int, int)> {
    match pts {
        None => seq![],
        Some(p) => spans_for(
            first_sample(p as int, num as int, den as int, rate as int),
            nb as int,
            rate as int,
            ps,
        ),
    }
}

/// Stream sample `pos` lies in the bleep range of one of the positions: from
/// `sample_at(start)` up to, not including, `sample_at(end)`.
pub open spec fn in_bleep(pos: int, rate: int, ps: Seq<(Seq<char>, int, int)>) -> bool {
    exists|k: int|
        0 <= k < ps.len() && sample_at((#[trigger] ps[k]).1, rate) <= pos < sample_at(
            ps[k].2,
            rate,
        )
}

/// Noise lands exactly on the bleep ranges: sample `i` of a frame whose first sample sits
/// at stream position `s` is in one of the frame's spans exactly when stream sample
/// `s + i` lies in the bleep range of some position. Every span lies within the frame.
pub proof fn lemma_spans_are_bleep_ranges(s: int, nb: int, rate: int, ps: Seq<(Seq<char>, int, int)>)
    ensures
        forall|m: int|
            0 <= m < spans_for(s, nb, rate, ps).len() ==> 0 <= (#[trigger] spans_for(
                s,
                nb,
                rate,
                ps,
            )[m]).0 <= spans_for(s, nb, rate, ps)[m].1 < nb,
        forall|i: int|
            0 <= i < nb ==> (in_spans(spans_for(s, nb, rate, ps), i) <==> #[trigger] in_bleep(
                s + i,
                rate,
                ps,
            )),
    decreases ps.len(),
{
    if ps.len() > 0 {
        let rest = ps.drop_last();
        let p = ps.last();
        lemma_spans_are_bleep_ranges(s, nb, rate, rest);
        let prev = spans_for(s, nb, rate, rest);
        let cur = spans_for(s, nb, rate, ps);
        assert forall|i: int| 0 <= i < nb implies (in_spans(cur, i) <==> #[trigger] in_bleep(
            s + i,
            rate,
            ps,
        )) by {
            assert(in_spans(prev, i) <==> in_bleep(s + i, rate, rest));
            if in_bleep(s + i, rate, ps) {
                let k = choose|k: int|
                    0 <= k < ps.len() && sample_at((#[trigger] ps[k]).1, rate) <= s + i
                        < sample_at(ps[k].2, rate);
                if k < rest.len() {
                    assert(rest[k] == ps[k]);
                    let m = choose|m: int| 0 <= m < prev.len() && (#[trigger] prev[m]).0 <= i <= prev[m].1;
                    assert(cur[m] == prev[m]);
                } else {
                    assert(ps[k] == p);
                    assert(cur[cur.len() - 1] == covered(s, nb, rate, p.1, p.2)->0);
                }
            }
            if in_spans(cur, i) {
                let m = choose|m: int| 0 <= m < cur.len() && (#[trigger] cur[m]).0 <= i <= cur[m].1;
                if m < prev.len() {
                    assert(cur[m] == prev[m]);
                    let k = choose|k: int|
                        0 <= k < rest.len() && sample_at((#[trigger] rest[k]).1, rate) <= s + i
                            < sample_at(rest[k].2, rate);
                    assert(ps[k] == rest[k]);
                } else {
                    assert(ps[ps.len() - 1] == p);
                }
            }
        }
    }
}

proof fn lemma_div_1000(x: int)
    requires
        x >= 0,
    ensures
        (x / 1000) * 1000 <= x < (x / 1000) * 1000 + 1000,
{
    vstd::arithmetic::div_mod::lemma_fundamental_div_mod(x, 1000);
}

/// The sample at which a time falls is the exact product of the time and the rate, divided
/// by a thousand and rounded toward zero, however large the product: for a product `p` that
/// is not negative, `sample_at * 1000 <= p < sample_at * 1000 + 1000`, and for a negative
/// one, `sample_at * 1000 - 1000 < p <= sample_at * 1000`.
pub proof fn lemma_sample_at_rounds(ms: int, rate: int)
    ensures
        ms * rate >= 0 ==> sample_at(ms, rate) * 1000 <= ms * rate < sample_at(ms, rate) * 1000
            + 1000,
        ms * rate < 0 ==> sample_at(ms, rate) * 1000 - 1000 < ms * rate <= sample_at(ms, rate)
            * 1000,
{
    let p = ms * rate;
    if p >= 0 {
        lemma_div_1000(p);
    } else {
        lemma_div_1000(-p);
    }
}

/// A frame that lies wholly inside the time range of one of the positions gets noise on
/// every one of its samples: where the position's start is at or before the frame's first
/// sample `s` and its end at or after the end of the frame's `nb` samples (times in ms
/// multiplied by the rate, against sample positions multiplied by a thousand), every sample
/// of the frame lies in one of its spans.
pub proof fn lemma_frame_inside_position(
    s: int,
    nb: int,
    rate: int,
    ps: Seq<(Seq<char>, int, int)>,
    k: int,
)
    requires
        0 <= k < ps.len(),
        ps[k].1 * rate <= s * 1000,
        (s + nb) * 1000 <= ps[k].2 * rate,
    ensures
        forall|i: int| 0 <= i < nb ==> in_spans(spans_for(s, nb, rate, ps), i),
{
    lemma_spans_are_bleep_ranges(s, nb, rate, ps);
    lemma_sample_at_rounds(ps[k].1, rate);
    lemma_sample_at_rounds(ps[k].2, rate);
    let a = sample_at(ps[k].1, rate);
    let b = sample_at(ps[k].2, rate);
    assert(a <= s) by (nonlinear_arith)
        requires
            a * 1000 - 1000 < ps[k].1 * rate,
            ps[k].1 * rate <= s * 1000,
    {
    }
    assert(b >= s + nb) by (nonlinear_arith)
        requires
            (s + nb) * 1000 <= ps[k].2 * rate,
            ps[k].2 * rate < b * 1000 + 1000,
    {
    }
    assert forall|i: int| 0 <= i < nb implies in_spans(spans_for(s, nb, rate, ps), i) by {
        assert(in_bleep(s + i, rate, ps));
    }
}

/// Where nothing is to be censored, no frame gets any noise.
pub proof fn lemma_no_positions_no_noise(s: int, nb: int, rate: int)
    ensures
        spans_for(s, nb, rate, seq![]) == Seq::<(int, int)>::empty(),
{
}

/// The spans that the positions `censored` cover in an audio frame whose first sample has
/// timestamp `pts` in the time base `num/den`, holding `nb_samples` samples (per channel) at
/// `sample_rate` samples per second: for each position in order that reaches into the
/// frame, the frame's samples that lie in its bleep range. A frame without a timestamp gets
/// no noise. Each span lies within the frame's samples.
pub fn noise_spans(
    pts: Option<i64>,
    num: i32,
    den: i32,
    nb_samples: usize,
    sample_rate: i32,
    censored: &Vec<CensoringPosition>,
) -> (res: Vec<NoiseSpan>)
    requires
        pts is Some ==> den != 0,
    ensures
        span_views(res@) == frame_spans(
            pts,
            num,
            den,
            nb_samples,
            sample_rate,
            position_views(censored@),
        ),
        forall|k: int| 0 <= k < res@.len() ==> span_within(#[trigger] res@[k], nb_samples),
{
    let ghost ps = position_views(censored@);
    let mut res: Vec<NoiseSpan> = Vec::new();
    let p: i64 = match pts {
        Some(p) => p,
        None => {
            return res;
        },
    };
    let rate: i128 = sample_rate as i128;
    proof {
        lemma_mul_bound(p as int, num as int, 0x8000_0000_0000_0000, 0x8000_0000);
        lemma_mul_bound((p as int) * (num as int), rate as int, 0x8000_0000_0000_0000_0000_0000, 0x8000_0000);
    }
    let s: i128 = trunc_div((p as i128) * (num as i128) * rate, den as i128);
    assert(-0x4000_0000_0000_0000_0000_0000_0000_0000 <= s <= 0x4000_0000_0000_0000_0000_0000_0000_0000) by {
        crate::arith::lemma_tdiv_within((p as int) * (num as int) * (rate as int), den as int);
    }
    let nb: i128 = nb_samples as i128;
    let n: usize = censored.len();
    let mut k: usize = 0;
    while k < n
        invariant
            n == censored.len(),
            k <= n,
            ps == position_views(censored@),
            rate == sample_rate,
            nb == nb_samples,
            -0x4000_0000_0000_0000_0000_0000_0000_0000 <= s <= 0x4000_0000_0000_0000_0000_0000_0000_0000,
            span_views(res@) == spans_for(s as int, nb as int, rate as int, ps.take(k as int)),
            forall|m: int| 0 <= m < res@.len() ==> span_within(#[trigger] res@[m], nb_samples),
        decreases n - k,
    {
        let cp = &censored[k];
        assert(ps.take(k + 1).drop_last() =~= ps.take(k as int));
        assert(ps.take(k + 1).last() == ps[k as int]);
        assert(ps[k as int] == cp@);
        proof {
            lemma_sample_at_bounds(cp.start_ms as int, rate as int);
            lemma_sample_at_bounds(cp.end_ms as int, rate as int);
        }
        let a: i128 = trunc_div((cp.start_ms as i128) * rate, 1000);
        let b: i128 = trunc_div((cp.end_ms as i128) * rate, 1000);
        let first: i128 = if a - s >= 0 { a - s } else { 0 };
        let end: i128 = if b - s <= nb { b - s } else { nb };
        if first < end {
            let span = NoiseSpan { first: first as usize, last: (end - 1) as usize };
            assert(span_within(span, nb_samples));
            let ghost before = res@;
            res.push(span);
            assert forall|m: int| 0 <= m < res@.len() implies span_within(#[trigger] res@[m], nb_samples) by {
                if m < before.len() {
                    assert(res@[m] == before[m]);
                }
            }
            assert(span_views(res@) =~= span_views(before).push(span@));
        }
        k = k + 1;
    }
    assert(ps.take(n as int) =~= ps);
    res
}

proof fn lemma_mul_bound(x: int, y: int, a: int, b: int)
    by (nonlinear_arith)
    requires
        -a <= x <= a,
        -b <= y <= b,
    ensures
        -(a * b) <= x * y <= a * b,
{
    if x >= 0 && y >= 0 {
        assert(x * y <= a * y);
        assert(a * y <= a * b);
    } else if x >= 0 {
        assert(x * y >= x * (-b));
        assert(x * (-b) >= a * (-b));
    } else if y >= 0 {
        assert(x * y >= (-a) * y);
        assert((-a) * y >= (-a) * b);
    } else {
        assert(x * y <= (-a) * y);
        assert((-a) * y <= (-a) * (-b));
    }
}

proof fn lemma_sample_at_bounds(ms: int, rate: int)
    requires
        i64::MIN <= ms <= i64::MAX,
        i32::MIN <= rate <= i32::MAX,
    ensures
        -0x8000_0000_0000_0000_0000_0000 <= ms * rate <= 0x8000_0000_0000_0000_0000_0000,
        -0x8000_0000_0000_0000_0000_0000 <= sample_at(ms, rate) <= 0x8000_0000_0000_0000_0000_0000,
{
    lemma_mul_bound(ms, rate, 0x8000_0000_0000_0000, 0x8000_0000);
    crate::arith::lemma_tdiv_within(ms * rate, 1000);
}

/// The spans of a frame for any inputs: `None` exactly where the frame has a timestamp in a
/// time base with a zero denominator, else the spans of `noise_spans`.
pub fn try_noise_spans(
    pts: Option<i64>,
    num: i32,
    den: i32,
    nb_samples: usize,
    sample_rate: i32,
    censored: &Vec<CensoringPosition>,
) -> (res: Option<Vec<NoiseSpan>>)
    ensures
        res is Some <==> (pts is Some ==> den != 0),
        res matches Some(spans) ==> span_views(spans@) == frame_spans(
            pts,
            num,
            den,
            nb_samples,
            sample_rate,
            position_views(censored@),
        ),
        res matches Some(spans) ==> forall|k: int|
            0 <= k < spans@.len() ==> span_within(#[trigger] spans@[k], nb_samples),
{
    if pts.is_some() && den == 0 {
        None
    } else {
        Some(noise_spans(pts, num, den, nb_samples, sample_rate, censored))
    }
}


/// A plane with the samples of one span replaced by `values` (`values[0]` at the span's
/// first sample).
pub open spec fn paint<T>(plane: Seq<T>, span: (int, int), values: Seq<T>) -> Seq<T> {
    Seq::new(plane.len(), |i: int| if span.0 <= i <= span.1 { values[i - span.0] } else { plane[i] })
}

/// A plane with each span in turn replaced by its values.
pub open spec fn paint_all<T>(plane: Seq<T>, spans: Seq<(int, int)>, values: Seq<Seq<T>>) -> Seq<T>
    decreases spans.len(),
{
    if spans.len() == 0 {
        plane
    } else {
        paint(
            paint_all(plane, spans.drop_last(), values.drop_last()),
            spans.last(),
            values.last(),
        )
    }
}

/// The noise for channel `c`: `noise[k][c]` for each span `k`.
pub open spec fn channel_noise<T>(noise: Seq<Vec<Vec<T>>>, c: int) -> Seq<Seq<T>> {
    noise.map_values(|nk: Vec<Vec<T>>| nk@[c]@)
}

/// Painting touches only the spans: a sample in no span keeps its value, and a sample in
/// some span takes the value given for it by one of the spans that hold it.
pub proof fn lemma_paint_all<T>(plane: Seq<T>, spans: Seq<(int, int)>, values: Seq<Seq<T>>)
    requires
        values.len() == spans.len(),
    ensures
        paint_all(plane, spans, values).len() == plane.len(),
        forall|i: int|
            0 <= i < plane.len() && !in_spans(spans, i) ==> #[trigger] paint_all(
                plane,
                spans,
                values,
            )[i] == plane[i],
        forall|i: int|
            0 <= i < plane.len() && in_spans(spans, i) ==> exists|k: int|
                0 <= k < spans.len() && (#[trigger] spans[k]).0 <= i <= spans[k].1 && paint_all(
                    plane,
                    spans,
                    values,
                )[i] == values[k][i - spans[k].0],
    decreases spans.len(),
{
    if spans.len() > 0 {
        let rs = spans.drop_last();
        let rv = values.drop_last();
        lemma_paint_all(plane, rs, rv);
        let prev = paint_all(plane, rs, rv);
        let cur = paint_all(plane, spans, values);
        let last = spans.len() - 1;
        assert forall|i: int| 0 <= i < plane.len() && !in_spans(spans, i) implies #[trigger] cur[i] == plane[i] by {
            assert(!(spans[last].0 <= i <= spans[last].1));
            if in_spans(rs, i) {
                let m = choose|m: int| 0 <= m < rs.len() && (#[trigger] rs[m]).0 <= i <= rs[m].1;
                assert(spans[m] == rs[m]);
            }
        }
        assert forall|i: int| 0 <= i < plane.len() && in_spans(spans, i) implies exists|k: int|
            0 <= k < spans.len() && (#[trigger] spans[k]).0 <= i <= spans[k].1 && cur[i] == values[k][i
                - spans[k].0] by {
            if spans[last].0 <= i <= spans[last].1 {
                assert(values[last] == values.last());
            } else {
                let m = choose|m: int| 0 <= m < spans.len() && (#[trigger] spans[m]).0 <= i <= spans[m].1;
                assert(m < last);
                assert(rs[m] == spans[m]);
                assert(in_spans(rs, i));
                let k = choose|k: int|
                    0 <= k < rs.len() && (#[trigger] rs[k]).0 <= i <= rs[k].1 && prev[i] == rv[k][i
                        - rs[k].0];
                assert(spans[k] == rs[k] && values[k] == rv[k]);
            }
        }
    }
}

/// Every span lies within every plane.
pub open spec fn spans_fit_planes<T>(spans: Seq<NoiseSpan>, planes: Seq<Vec<T>>) -> bool {
    forall|k: int, c: int|
        0 <= k < spans.len() && 0 <= c < planes.len() ==> (#[trigger] spans[k]).first <= spans[k].last
            < (#[trigger] planes[c])@.len()
}

/// The noise holds, for each span and each channel, one value per sample of the span.
pub open spec fn noise_fits_spans<T>(noise: Seq<Vec<Vec<T>>>, spans: Seq<NoiseSpan>, channels: int) -> bool {
    &&& noise.len() == spans.len()
    &&& forall|k: int| 0 <= k < spans.len() ==> (#[trigger] noise[k])@.len() == channels
    &&& forall|k: int, c: int|
        0 <= k < spans.len() && 0 <= c < channels ==> (#[trigger] noise[k]@[c])@.len() == spans[k].last
            - spans[k].first + 1
}

/// Writes noise over the spans of a frame, channel by channel: `noise[k][c]` holds the values
/// for span `k` in channel `c`, one per sample of the span. Every sample outside the spans
/// keeps its value.
pub fn censor_planes<T: Copy>(planes: &mut Vec<Vec<T>>, spans: &Vec<NoiseSpan>, noise: &Vec<Vec<Vec<T>>>)
    requires
        noise_fits_spans(noise@, spans@, old(planes)@.len() as int),
        spans_fit_planes(spans@, old(planes)@),
    ensures
        final(planes)@.len() == old(planes)@.len(),
        forall|c: int|
            0 <= c < old(planes)@.len() ==> (#[trigger] final(planes)@[c])@ == paint_all(
                old(planes)@[c]@,
                span_views(spans@),
                channel_noise(noise@, c),
            ),
{
    let ghost olds = planes@;
    let n: usize = planes.len();
    let mut out: Vec<Vec<T>> = Vec::new();
    let mut c: usize = 0;
    while c < n
        invariant
            n == olds.len(),
            c <= n,
            out@.len() == c,
            planes@ == olds,
            noise_fits_spans(noise@, spans@, olds.len() as int),
            spans_fit_planes(spans@, olds),
            forall|c2: int|
                0 <= c2 < c ==> (#[trigger] out@[c2])@ == paint_all(
                    olds[c2]@,
                    span_views(spans@),
                    channel_noise(noise@, c2),
                ),
        decreases n - c,
    {
        let mut plane: Vec<T> = Vec::new();
        let src = &planes[c];
        let m: usize = src.len();
        let mut i: usize = 0;
        while i < m
            invariant
                m == src@.len(),
                i <= m,
                plane@ == src@.take(i as int),
            decreases m - i,
        {
            plane.push(src[i]);
            i = i + 1;
        }
        assert(src@.take(m as int) =~= src@);
        let ns: usize = spans.len();
        let mut k: usize = 0;
        while k < ns
            invariant
                ns == spans@.len(),
                k <= ns,
                c < n,
                n == olds.len(),
                src@ == olds[c as int]@,
                noise_fits_spans(noise@, spans@, olds.len() as int),
                spans_fit_planes(spans@, olds),
                plane@ == paint_all(
                    src@,
                    span_views(spans@).take(k as int),
                    channel_noise(noise@, c as int).take(k as int),
                ),
            decreases ns - k,
        {
            let span = spans[k];
            let values = &noise[k][c];
            assert(spans@[k as int].first <= spans@[k as int].last < olds[c as int]@.len());
            assert(noise@[k as int]@.len() == olds.len());
            assert(values@.len() == span.last - span.first + 1);
            let ghost before = plane@;
            proof {
                lemma_paint_len(src@, span_views(spans@).take(k as int), channel_noise(noise@, c as int).take(k as int));
            }
            assert(src@.len() == src.len());
            let mut i: usize = span.first;
            while i <= span.last
                invariant
                    span.first <= i <= span.last + 1,
                    span.last < before.len(),
                    before.len() == src@.len(),
                    src@.len() <= usize::MAX,
                    values@.len() == span.last - span.first + 1,
                    plane@.len() == before.len(),
                    forall|x: int|
                        0 <= x < before.len() ==> #[trigger] plane@[x] == if span.first <= x < i {
                            values@[x - span.first]
                        } else {
                            before[x]
                        },
                decreases span.last + 1 - i,
            {
                plane.set(i, values[i - span.first]);
                i = i + 1;
            }
            let ghost sv = span_views(spans@);
            let ghost cn = channel_noise(noise@, c as int);
            assert(sv.take(k + 1).drop_last() =~= sv.take(k as int));
            assert(cn.take(k + 1).drop_last() =~= cn.take(k as int));
            assert(sv.take(k + 1).last() == span@);
            assert(cn.take(k + 1).last() == values@);
            assert(plane@ =~= paint(before, span@, values@));
            k = k + 1;
        }
        assert(span_views(spans@).take(ns as int) =~= span_views(spans@));
        assert(channel_noise(noise@, c as int).take(ns as int) =~= channel_noise(noise@, c as int));
        out.push(plane);
        c = c + 1;
    }
    *planes = out;
}

proof fn lemma_paint_len<T>(plane: Seq<T>, spans: Seq<(int, int)>, values: Seq<Seq<T>>)
    ensures
        paint_all(plane, spans, values).len() == plane.len(),
    decreases spans.len(),
{
    if spans.len() > 0 {
        lemma_paint_len(plane, spans.drop_last(), values.drop_last());
    }
}

} // verus!
