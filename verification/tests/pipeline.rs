use no_swear::bleeps::CensoringPosition;
use no_swear::censor::next_frame;
use no_swear::noise::{censor_planes, NoiseSpan};
use no_swear::encoder::{drain_step, EncoderStep, Flush, ReceiveOutcome, MAX_RETRIES};
use no_swear::frames::FrameQueue;
use no_swear::model::{cached_model_usable, model_url, partial_file_name};
use no_swear::streams::{check_audio_stream, muxer_name, output_plan, MediaKind, OutputStream, StreamCheckError};

#[test]
fn drain_decisions() {
    assert_eq!(drain_step(ReceiveOutcome::Packet), EncoderStep::Write);
    assert_eq!(drain_step(ReceiveOutcome::EndOfStream), EncoderStep::Finish);
    assert_eq!(drain_step(ReceiveOutcome::TryAgain), EncoderStep::Finish);
    assert_eq!(drain_step(ReceiveOutcome::Failed), EncoderStep::Fail);
}

#[test]
fn flush_times_out_after_max_retries() {
    let mut f = Flush::new();
    for _ in 1..MAX_RETRIES {
        assert_eq!(f.step(ReceiveOutcome::TryAgain), EncoderStep::Wait);
    }
    assert_eq!(f.empty_polls(), MAX_RETRIES - 1);
    assert_eq!(f.step(ReceiveOutcome::TryAgain), EncoderStep::TimedOut);
    assert_eq!(MAX_RETRIES, 100);
}

#[test]
fn flush_packet_resets_count() {
    let mut f = Flush::new();
    for _ in 0..50 {
        assert_eq!(f.step(ReceiveOutcome::TryAgain), EncoderStep::Wait);
    }
    assert_eq!(f.step(ReceiveOutcome::Packet), EncoderStep::Write);
    assert_eq!(f.empty_polls(), 0);
    for _ in 1..MAX_RETRIES {
        assert_eq!(f.step(ReceiveOutcome::TryAgain), EncoderStep::Wait);
    }
    assert_eq!(f.step(ReceiveOutcome::EndOfStream), EncoderStep::Finish);
    assert_eq!(f.step(ReceiveOutcome::Failed), EncoderStep::Fail);
}

#[test]
fn frames_come_out_in_order_with_sample_stamps() {
    let mut q: FrameQueue<i32> = FrameQueue::new(2, 4);
    assert!(q.pop_frame().is_none());
    q.push_block(&vec![vec![1, 2, 3], vec![10, 20, 30]]);
    assert!(q.pop_frame().is_none());
    q.push_block(&vec![vec![4, 5, 6, 7, 8, 9], vec![40, 50, 60, 70, 80, 90]]);
    assert_eq!(q.buffered(), 9);
    assert_eq!(q.pop_frame(), Some((0, vec![vec![1, 2, 3, 4], vec![10, 20, 30, 40]])));
    assert_eq!(q.pop_frame(), Some((4, vec![vec![5, 6, 7, 8], vec![50, 60, 70, 80]])));
    assert_eq!(q.pop_frame(), None);
    assert_eq!(q.buffered(), 1);
    q.pad_tail(0);
    assert_eq!(q.buffered(), 4);
    assert_eq!(q.pop_frame(), Some((8, vec![vec![9, 0, 0, 0], vec![90, 0, 0, 0]])));
    assert_eq!(q.next_pts(), 12);
    assert_eq!(q.buffered(), 0);
    q.pad_tail(0);
    assert_eq!(q.buffered(), 0);
    assert_eq!(q.num_channels(), 2);
    assert_eq!(q.frame_size(), 4);
}

#[test]
fn pad_tail_cuts_long_channels() {
    let mut q: FrameQueue<u8> = FrameQueue::new(1, 2);
    q.push_block(&vec![vec![1, 2, 3]]);
    q.pad_tail(9);
    assert_eq!(q.pop_frame(), Some((0, vec![vec![1, 2]])));
    assert_eq!(q.buffered(), 0);
}

#[test]
fn audio_stream_checks() {
    let kinds = vec![MediaKind::Video, MediaKind::Audio, MediaKind::Subtitle];
    assert_eq!(check_audio_stream(1, &kinds), Ok(()));
    assert_eq!(check_audio_stream(0, &kinds), Err(StreamCheckError::NotAudio(MediaKind::Video)));
    assert_eq!(check_audio_stream(2, &kinds), Err(StreamCheckError::NotAudio(MediaKind::Subtitle)));
    assert_eq!(check_audio_stream(3, &kinds), Err(StreamCheckError::NoSuchStream));
    assert_eq!(check_audio_stream(0, &vec![]), Err(StreamCheckError::NoSuchStream));
}

#[test]
fn output_keeps_stream_indices() {
    assert_eq!(
        output_plan(4, 1),
        vec![OutputStream::Copied(0), OutputStream::Encoded, OutputStream::Copied(2), OutputStream::Copied(3)]
    );
    assert_eq!(output_plan(1, 0), vec![OutputStream::Encoded]);
    assert_eq!(
        output_plan(2, 5),
        vec![OutputStream::Copied(0), OutputStream::Copied(1), OutputStream::Encoded]
    );
}

#[test]
fn model_locations() {
    assert_eq!(
        model_url("ggerganov/whisper.cpp", "ggml-tiny.en-q5_1.bin"),
        "https://huggingface.co/ggerganov/whisper.cpp/resolve/main/ggml-tiny.en-q5_1.bin"
    );
    assert_eq!(partial_file_name("ggml-tiny.en-q5_1.bin"), "ggml-tiny.en-q5_1.bin.part");
    assert!(cached_model_usable(true, 10));
    assert!(!cached_model_usable(true, 0));
    assert!(!cached_model_usable(false, 10));
}

#[test]
fn frames_keep_every_sample_in_order() {
    let mut q: FrameQueue<u32> = FrameQueue::new(3, 5);
    let mut pushed: Vec<Vec<u32>> = vec![vec![], vec![], vec![]];
    let mut popped: Vec<Vec<u32>> = vec![vec![], vec![], vec![]];
    let mut next = 0u32;
    for size in [0usize, 3, 7, 1, 12, 4, 9] {
        let block: Vec<Vec<u32>> = (0..3u32)
            .map(|c| (0..size as u32).map(|i| (next + i) * 10 + c).collect())
            .collect();
        next += size as u32;
        for c in 0..3 {
            pushed[c].extend_from_slice(&block[c]);
        }
        q.push_block(&block);
        while let Some((pts, frame)) = q.pop_frame() {
            assert_eq!(pts as usize, popped[0].len());
            for c in 0..3 {
                assert_eq!(frame[c].len(), 5);
                popped[c].extend_from_slice(&frame[c]);
            }
        }
        assert!(q.buffered() < 5);
    }
    for c in 0..3 {
        assert_eq!(popped[c][..], pushed[c][..popped[c].len()]);
        assert_eq!(popped[c].len() + q.buffered(), pushed[c].len());
    }
}

#[test]
fn output_plan_preserves_indices_everywhere() {
    for nb in 1..6usize {
        for audio in 0..nb {
            let plan = output_plan(nb, audio);
            assert_eq!(plan.len(), nb);
            for (i, role) in plan.iter().enumerate() {
                if i == audio {
                    assert_eq!(*role, OutputStream::Encoded);
                } else {
                    assert_eq!(*role, OutputStream::Copied(i));
                }
            }
        }
    }
}

#[test]
fn frames_come_with_their_noise_spans() {
    // One sample per millisecond: a position from 5 to 7 ms covers stream samples 5 and 6.
    let mut q: FrameQueue<i32> = FrameQueue::new(1, 4);
    q.push_block(&vec![(0..10).collect()]);
    let cps = vec![CensoringPosition { word: "x".to_string(), start_ms: 5, end_ms: 7 }];
    let (pts, frame, spans) = next_frame(&mut q, &cps, 1000).unwrap();
    assert_eq!((pts, frame, spans), (0, vec![vec![0, 1, 2, 3]], vec![]));
    let (pts, mut frame, spans) = next_frame(&mut q, &cps, 1000).unwrap();
    assert_eq!(pts, 4);
    assert_eq!(spans, vec![NoiseSpan { first: 1, last: 2 }]);
    censor_planes(&mut frame, &spans, &vec![vec![vec![-1, -1]]]);
    assert_eq!(frame, vec![vec![4, -1, -1, 7]]);
    assert!(next_frame(&mut q, &cps, 1000).is_none());
    assert_eq!(q.buffered(), 2);
}

#[test]
fn output_container_follows_input() {
    assert_eq!(muxer_name("matroska,webm"), "matroska");
    assert_eq!(muxer_name("mov,mp4,m4a,3gp,3g2,mj2"), "mov");
    assert_eq!(muxer_name("wav"), "wav");
    assert_eq!(muxer_name(""), "");
    assert_eq!(muxer_name(",x"), "");
}
