use vstd::prelude::*;

verus! {

/// A copy of `v[lo..hi]`.
fn copy_range<T: Copy>(v: &Vec<T>, lo: usize, hi: usize) -> (r: Vec<T>)
    requires
        lo <= hi <= v.len(),
    ensures
        r@ == v@.subrange(lo as int, hi as int),
{
    let mut r: Vec<T> = Vec::new();
    let mut i: usize = lo;
    while i < hi
        invariant
            lo <= i <= hi <= v.len(),
            r@ == v@.subrange(lo as int, i as int),
        decreases hi - i,
    {
        r.push(v[i]);
        i = i + 1;
    }
    r
}

pub open spec fn plane_views<T>(planes: Seq<Vec<T>>) -> Seq<Seq<T>> {
    planes.map_values(|p: Vec<T>| p@)
}

/// Planar audio waiting to be cut into frames of a fixed size for an encoder. Samples are
/// pushed in blocks (one plane per channel, all of one length) and come out in frames of
/// `frame_size` samples per channel, in order, each stamped with the position of its
/// first sample in the stream, counted in samples from the first one pushed.
pub struct FrameQueue<T> {
    planes: Vec<Vec<T>>,
    frame_size: usize,
    next_pts: i64,
    emitted: Ghost<Seq<Seq<T>>>,
}

impl<T: Copy> FrameQueue<T> {
    /// The samples waiting, per channel.
    pub closed spec fn channels(&self) -> Seq<Seq<T>> {
        plane_views(self.planes@)
    }

    /// The samples per channel in each frame.
    pub closed spec fn spec_frame_size(&self) -> nat {
        self.frame_size as nat
    }

    /// The stamp that the next frame will carry: the number of samples per channel
    /// handed out so far.
    pub closed spec fn spec_next_pts(&self) -> int {
        self.next_pts as int
    }

    /// All samples of channel `c` that have passed through the queue or wait in it, in
    /// order: those handed out in frames, then those waiting.
    pub closed spec fn stream(&self, c: int) -> Seq<T> {
        self.emitted@[c] + self.channels()[c]
    }

    /// The number of samples waiting in each channel.
    pub open spec fn waiting(&self) -> int {
        self.channels()[0].len() as int
    }

    pub closed spec fn wf(&self) -> bool {
        &&& self.planes@.len() >= 1
        &&& self.frame_size >= 1
        &&& self.next_pts >= 0
        &&& self.emitted@.len() == self.planes@.len()
        &&& forall|c: int|
            0 <= c < self.planes@.len() ==> #[trigger] self.planes@[c]@.len()
                == self.planes@[0]@.len()
        &&& forall|c: int|
            0 <= c < self.planes@.len() ==> #[trigger] self.emitted@[c].len() == self.next_pts
    }

    /// An empty queue for `num_channels` channels and frames of `frame_size` samples.
    pub fn new(num_channels: usize, frame_size: usize) -> (q: Self)
        requires
            num_channels >= 1,
            frame_size >= 1,
        ensures
            q.wf(),
            q.channels().len() == num_channels,
            forall|c: int| 0 <= c < num_channels ==> (#[trigger] q.channels()[c]).len() == 0,
            forall|c: int| 0 <= c < num_channels ==> (#[trigger] q.stream(c)).len() == 0,
            q.spec_frame_size() == frame_size,
            q.spec_next_pts() == 0,
    {
        let mut planes: Vec<Vec<T>> = Vec::new();
        let mut c: usize = 0;
        while c < num_channels
            invariant
                c <= num_channels,
                planes@.len() == c,
                forall|k: int| 0 <= k < c ==> (#[trigger] planes@[k])@.len() == 0,
            decreases num_channels - c,
        {
            planes.push(Vec::with_capacity(frame_size));
            c = c + 1;
        }
        let ghost emitted = Seq::new(num_channels as nat, |k: int| Seq::<T>::empty());
        FrameQueue { planes, frame_size, next_pts: 0, emitted: Ghost(emitted) }
    }

    /// Appends one block of decoded audio: `block[c]` to channel `c`.
    pub fn push_block(&mut self, block: &Vec<Vec<T>>)
        requires
            old(self).wf(),
            block@.len() == old(self).channels().len(),
            forall|c: int| 0 <= c < block@.len() ==> #[trigger] block@[c]@.len() == block@[0]@.len(),
        ensures
            final(self).wf(),
            final(self).channels().len() == old(self).channels().len(),
            forall|c: int|
                0 <= c < block@.len() ==> #[trigger] final(self).channels()[c] == old(
                    self,
                ).channels()[c] + block@[c]@,
            forall|c: int|
                0 <= c < block@.len() ==> #[trigger] final(self).stream(c) == old(self).stream(c)
                    + block@[c]@,
            final(self).spec_frame_size() == old(self).spec_frame_size(),
            final(self).spec_next_pts() == old(self).spec_next_pts(),
    {
        let n: usize = self.planes.len();
        let mut planes: Vec<Vec<T>> = Vec::new();
        let mut c: usize = 0;
        while c < n
            invariant
                n == self.planes@.len(),
                n == block@.len(),
                c <= n,
                planes@.len() == c,
                forall|k: int|
                    0 <= k < c ==> (#[trigger] planes@[k])@ == self.planes@[k]@ + block@[k]@,
            decreases n - c,
        {
            let old_plane = &self.planes[c];
            let mut p = copy_range(old_plane, 0, old_plane.len());
            let add = &block[c];
            let m: usize = add.len();
            let mut i: usize = 0;
            while i < m
                invariant
                    m == add@.len(),
                    i <= m,
                    p@ == old_plane@ + add@.take(i as int),
                decreases m - i,
            {
                p.push(add[i]);
                i = i + 1;
            }
            assert(add@.take(m as int) =~= add@);
            planes.push(p);
            c = c + 1;
        }
        self.planes = planes;
        assert(self.channels() =~= Seq::new(n as nat, |k: int| old(self).channels()[k] + block@[k]@));
    }

    /// Takes the next frame if a whole one is waiting: its stamp and `frame_size` samples of
    /// each channel. The frame stamped `pts` carries the samples at positions
    /// `pts .. pts + frame_size` of each channel's stream.
    pub fn pop_frame(&mut self) -> (res: Option<(i64, Vec<Vec<T>>)>)
        requires
            old(self).wf(),
            old(self).waiting() >= old(self).spec_frame_size() ==> old(self).spec_next_pts()
                + old(self).spec_frame_size() <= i64::MAX,
        ensures
            final(self).wf(),
            final(self).channels().len() == old(self).channels().len(),
            final(self).spec_frame_size() == old(self).spec_frame_size(),
            forall|c: int|
                0 <= c < old(self).channels().len() ==> #[trigger] final(self).stream(c) == old(
                    self,
                ).stream(c),
            old(self).waiting() < old(self).spec_frame_size() ==> {
                &&& res is None
                &&& final(self).channels() == old(self).channels()
                &&& final(self).spec_next_pts() == old(self).spec_next_pts()
            },
            old(self).waiting() >= old(self).spec_frame_size() ==> (res matches Some((pts, frame)) && {
                let f = old(self).spec_frame_size() as int;
                &&& pts == old(self).spec_next_pts()
                &&& final(self).spec_next_pts() == pts + f
                &&& frame@.len() == old(self).channels().len()
                &&& forall|c: int|
                    0 <= c < frame@.len() ==> {
                        &&& #[trigger] frame@[c]@ == old(self).channels()[c].take(f)
                        &&& frame@[c]@ == old(self).stream(c).subrange(pts as int, pts + f)
                        &&& final(self).channels()[c] == old(self).channels()[c].skip(f)
                    }
            }),
    {
        let f: usize = self.frame_size;
        if self.planes[0].len() < f {
            return None;
        }
        let n: usize = self.planes.len();
        let ghost emitted_before = self.emitted@;
        let mut frame: Vec<Vec<T>> = Vec::new();
        let mut rest: Vec<Vec<T>> = Vec::new();
        let mut c: usize = 0;
        while c < n
            invariant
                self.wf(),
                n == self.planes@.len(),
                f == self.frame_size,
                self.planes@[0]@.len() >= f,
                c <= n,
                frame@.len() == c,
                rest@.len() == c,
                forall|k: int|
                    0 <= k < c ==> (#[trigger] frame@[k])@ == self.planes@[k]@.take(f as int),
                forall|k: int|
                    0 <= k < c ==> (#[trigger] rest@[k])@ == self.planes@[k]@.skip(f as int),
            decreases n - c,
        {
            let plane = &self.planes[c];
            assert(plane@.len() == self.planes@[0]@.len());
            frame.push(copy_range(plane, 0, f));
            rest.push(copy_range(plane, f, plane.len()));
            c = c + 1;
        }
        let pts: i64 = self.next_pts;
        let ghost before = *self;
        self.planes = rest;
        self.next_pts = pts + f as i64;
        self.emitted = Ghost(
            Seq::new(n as nat, |k: int| emitted_before[k] + frame@[k]@),
        );
        assert forall|k: int| 0 <= k < n implies #[trigger] self.stream(k) == before.stream(k) by {
            assert(self.planes@[k]@ == before.planes@[k]@.skip(f as int));
            assert(frame@[k]@ == before.planes@[k]@.take(f as int));
            assert(before.planes@[k]@ =~= before.planes@[k]@.take(f as int) + before.planes@[k]@.skip(f as int));
            assert(self.stream(k) =~= before.stream(k));
        }
        assert forall|k: int| 0 <= k < n implies #[trigger] frame@[k]@ == before.stream(k).subrange(pts as int, pts + f) by {
            assert(before.emitted@[k].len() == pts);
            assert(before.stream(k).subrange(pts as int, pts + f) =~= before.planes@[k]@.take(f as int));
        }
        Some((pts, frame))
    }

    /// Brings every channel to exactly one frame's worth of samples if any are waiting: a
    /// channel that is short is filled up with `fill`, a longer one is cut back (as
    /// `Vec::resize` does). Nothing changes when no sample waits.
    pub fn pad_tail(&mut self, fill: T)
        requires
            old(self).wf(),
        ensures
            final(self).wf(),
            final(self).channels().len() == old(self).channels().len(),
            final(self).spec_frame_size() == old(self).spec_frame_size(),
            final(self).spec_next_pts() == old(self).spec_next_pts(),
            old(self).waiting() == 0 ==> final(self).channels() == old(self).channels(),
            old(self).waiting() > 0 ==> forall|c: int|
                0 <= c < old(self).channels().len() ==> {
                    let f = old(self).spec_frame_size() as int;
                    let w = old(self).waiting();
                    &&& (#[trigger] final(self).channels()[c]).len() == f
                    &&& f <= w ==> final(self).channels()[c] == old(self).channels()[c].take(f)
                    &&& w < f ==> final(self).channels()[c] == old(self).channels()[c] + Seq::new(
                        (f - w) as nat,
                        |i: int| fill,
                    )
                },
    {
        let f: usize = self.frame_size;
        let w: usize = self.planes[0].len();
        if w == 0 {
            return;
        }
        let n: usize = self.planes.len();
        let mut planes: Vec<Vec<T>> = Vec::new();
        let mut c: usize = 0;
        while c < n
            invariant
                self.wf(),
                n == self.planes@.len(),
                f == self.frame_size,
                w == self.planes@[0]@.len(),
                c <= n,
                planes@.len() == c,
                forall|k: int|
                    0 <= k < c ==> (#[trigger] planes@[k])@ == if f <= w {
                        self.planes@[k]@.take(f as int)
                    } else {
                        self.planes@[k]@ + Seq::new((f - w) as nat, |i: int| fill)
                    },
            decreases n - c,
        {
            let plane = &self.planes[c];
            assert(plane@.len() == w);
            if f <= w {
                planes.push(copy_range(plane, 0, f));
            } else {
                let mut p = copy_range(plane, 0, w);
                let mut i: usize = w;
                while i < f
                    invariant
                        w <= i <= f,
                        p@ == plane@ + Seq::new((i - w) as nat, |j: int| fill),
                    decreases f - i,
                {
                    p.push(fill);
                    assert(p@ =~= plane@ + Seq::new((i + 1 - w) as nat, |j: int| fill));
                    i = i + 1;
                }
                planes.push(p);
            }
            c = c + 1;
        }
        self.planes = planes;
    }

    /// The number of samples waiting in each channel.
    pub fn buffered(&self) -> (n: usize)
        requires
            self.wf(),
        ensures
            n == self.waiting(),
    {
        self.planes[0].len()
    }

    /// The number of channels.
    pub fn num_channels(&self) -> (n: usize)
        ensures
            n == self.channels().len(),
    {
        self.planes.len()
    }

    /// The samples per channel in each frame.
    pub fn frame_size(&self) -> (n: usize)
        ensures
            n == self.spec_frame_size(),
    {
        self.frame_size
    }

    /// The stamp that the next frame will carry.
    pub fn next_pts(&self) -> (p: i64)
        ensures
            p == self.spec_next_pts(),
    {
        self.next_pts
    }
}

} // verus!
