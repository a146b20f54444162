use vstd::prelude::*;

use crate::text::chars_of;

verus! {

/// The kind of media a stream of the input carries.
#[derive(Clone, Copy, Debug, PartialEq, Eq, Structural)]
pub enum MediaKind {
    Unknown,
    Video,
    Audio,
    Data,
    Subtitle,
    Attachment,
}

/// Why the stream chosen for censoring cannot be used.
#[derive(Clone, Copy, Debug, PartialEq, Eq, Structural)]
pub enum StreamCheckError {
    /// The input has no stream of that index.
    NoSuchStream,
    /// The stream is there but carries this kind of media, not audio.
    NotAudio(MediaKind),
}

/// Checks the stream chosen for censoring against the kinds of the input's streams (in
/// index order): it must exist and carry audio.
pub fn check_audio_stream(audio: usize, kinds: &Vec<MediaKind>) -> (res: Result<(), StreamCheckError>)
    ensures
        audio >= kinds@.len() <==> res == Err::<(), StreamCheckError>(StreamCheckError::NoSuchStream),
        audio < kinds@.len() && kinds@[audio as int] != MediaKind::Audio <==> res == Err::<
            (),
            StreamCheckError,
        >(StreamCheckError::NotAudio(kinds@[audio as int])),
        res is Ok <==> audio < kinds@.len() && kinds@[audio as int] == MediaKind::Audio,
{
    if audio >= kinds.len() {
        return Err(StreamCheckError::NoSuchStream);
    }
    match kinds[audio] {
        MediaKind::Audio => Ok(()),
        other => Err(StreamCheckError::NotAudio(other)),
    }
}

/// Where an output stream comes from.
#[derive(Clone, Copy, Debug, PartialEq, Eq, Structural)]
pub enum OutputStream {
    /// Copied packet by packet from the input stream of this index.
    Copied(usize),
    /// The censored audio, encoded afresh.
    Encoded,
}

/// The streams of the output, in order: the input streams before the censored one copied,
/// then the encoded audio, then the input streams after the censored one copied.
pub open spec fn output_plan_spec(nb_streams: int, audio: int) -> Seq<OutputStream> {
    let before = if audio < nb_streams { audio } else { nb_streams };
    let after = if audio < nb_streams { nb_streams - audio - 1 } else { 0 };
    Seq::new(before as nat, |i: int| OutputStream::Copied(i as usize)) + seq![OutputStream::Encoded]
        + Seq::new(after as nat, |i: int| OutputStream::Copied((audio + 1 + i) as usize))
}

/// The layout of the output for an input of `nb_streams` streams whose stream `audio` is
/// censored. Where that stream exists, every output stream keeps the index of the input
/// stream it comes from.
pub fn output_plan(nb_streams: usize, audio: usize) -> (plan: Vec<OutputStream>)
    ensures
        plan@ == output_plan_spec(nb_streams as int, audio as int),
        audio < nb_streams ==> plan@.len() == nb_streams && forall|i: int|
            0 <= i < nb_streams ==> #[trigger] plan@[i] == if i == audio {
                OutputStream::Encoded
            } else {
                OutputStream::Copied(i as usize)
            },
{
    let mut plan: Vec<OutputStream> = Vec::new();
    let before: usize = if audio < nb_streams { audio } else { nb_streams };
    let mut i: usize = 0;
    while i < before
        invariant
            i <= before,
            before == if audio < nb_streams { audio } else { nb_streams },
            plan@ == Seq::new(i as nat, |k: int| OutputStream::Copied(k as usize)),
        decreases before - i,
    {
        plan.push(OutputStream::Copied(i));
        i = i + 1;
    }
    plan.push(OutputStream::Encoded);
    let ghost head = plan@;
    if audio < nb_streams {
        let mut j: usize = audio + 1;
        while j < nb_streams
            invariant
                audio < j <= nb_streams,
                plan@ == head + Seq::new((j - audio - 1) as nat, |k: int| OutputStream::Copied((audio + 1 + k) as usize)),
            decreases nb_streams - j,
        {
            plan.push(OutputStream::Copied(j));
            j = j + 1;
        }
    }
    plan
}


/// The name under which the output is written in the input's container format: the first
/// of the names that the demuxer lists (`"matroska,webm"` gives `"matroska"`), that is the
/// name up to its first comma.
pub open spec fn muxer_name_spec(demuxer: Seq<char>) -> Seq<char> {
    if exists|i: int| 0 <= i < demuxer.len() && demuxer[i] == ',' {
        demuxer.take(choose|i: int| 0 <= i < demuxer.len() && demuxer[i] == ',' && forall|j: int| 0 <= j < i ==> demuxer[j] != ',')
    } else {
        demuxer
    }
}

/// The muxer name for an input whose demuxer is named `demuxer`, so that the output's
/// container matches the input's.
pub fn muxer_name(demuxer: &str) -> (name: String)
    ensures
        name@ == muxer_name_spec(demuxer@),
{
    let cs = chars_of(demuxer);
    let n: usize = cs.len();
    let mut i: usize = 0;
    while i < n
        invariant
            n == cs@.len(),
            cs@ == demuxer@,
            i <= n,
            forall|j: int| 0 <= j < i ==> cs@[j] != ',',
        decreases n - i,
    {
        if cs[i] == ',' {
            let ghost d = demuxer@;
            assert(0 <= i < d.len() && d[i as int] == ',' && forall|j: int| 0 <= j < i ==> d[j] != ',');
            let ghost c = choose|c: int| 0 <= c < d.len() && d[c] == ',' && forall|j: int| 0 <= j < c ==> d[j] != ',';
            assert(c == i) by {
                if c < i {
                    assert(d[c] != ',');
                } else if c > i {
                    assert(d[i as int] != ',');
                }
            }
            return demuxer.substring_char(0, i).to_owned();
        }
        i = i + 1;
    }
    demuxer.to_owned()
}

} // verus!
