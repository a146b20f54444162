use vstd::prelude::*;

verus! {

/// How many empty polls in a row the encoder is given while it is being flushed.
pub const MAX_RETRIES: i32 = 100;

/// What one poll of an audio encoder for a finished packet brought.
#[derive(Clone, Copy, Debug, PartialEq, Eq, Structural)]
pub enum ReceiveOutcome {
    /// A packet was ready.
    Packet,
    /// The encoder has nothing more to give.
    EndOfStream,
    /// No packet is ready yet (the encoder asks to be polled again).
    TryAgain,
    /// Any other error.
    Failed,
}

/// What to do after a poll.
#[derive(Clone, Copy, Debug, PartialEq, Eq, Structural)]
pub enum EncoderStep {
    /// Write the packet out, then poll again.
    Write,
    /// Stop polling; all went well.
    Finish,
    /// Wait a moment, then poll again.
    Wait,
    /// Stop with the encoder's error.
    Fail,
    /// Stop: the encoder stayed empty for too many polls in a row.
    TimedOut,
}

/// While frames are still being sent, packets are taken until the encoder has none ready:
/// a packet is written, the end of the stream or an empty poll ends the draining, and any
/// other error is passed on.
pub fn drain_step(outcome: ReceiveOutcome) -> (step: EncoderStep)
    ensures
        outcome is Packet ==> step is Write,
        outcome is EndOfStream ==> step is Finish,
        outcome is TryAgain ==> step is Finish,
        outcome is Failed ==> step is Fail,
{
    match outcome {
        ReceiveOutcome::Packet => EncoderStep::Write,
        ReceiveOutcome::EndOfStream => EncoderStep::Finish,
        ReceiveOutcome::TryAgain => EncoderStep::Finish,
        ReceiveOutcome::Failed => EncoderStep::Fail,
    }
}

/// The state of flushing an encoder after its last frame: how many polls in a row found
/// no packet ready.
pub struct Flush {
    retries: i32,
}

/// One step of the flush, on the number of empty polls in a row: a packet resets the count
/// and is written; the end of the stream finishes; an empty poll counts, and waits unless
/// the count reaches `MAX_RETRIES`, where the flush times out; any other error fails.
pub open spec fn flush_next(retries: int, outcome: ReceiveOutcome) -> (int, EncoderStep) {
    match outcome {
        ReceiveOutcome::Packet => (0, EncoderStep::Write),
        ReceiveOutcome::EndOfStream => (retries, EncoderStep::Finish),
        ReceiveOutcome::TryAgain => if retries + 1 >= MAX_RETRIES {
            (retries + 1, EncoderStep::TimedOut)
        } else {
            (retries + 1, EncoderStep::Wait)
        },
        ReceiveOutcome::Failed => (retries, EncoderStep::Fail),
    }
}

/// The step taken after `k` empty polls in a row from a count of `retries`, each step
/// being taken only where the one before was a wait.
pub open spec fn after_empty_polls(retries: int, k: nat) -> EncoderStep
    decreases k,
{
    if k <= 1 {
        flush_next(retries, ReceiveOutcome::TryAgain).1
    } else {
        match flush_next(retries, ReceiveOutcome::TryAgain) {
            (next, EncoderStep::Wait) => after_empty_polls(next, (k - 1) as nat),
            (_, step) => step,
        }
    }
}

impl Flush {
    /// The number of empty polls in a row so far.
    pub closed spec fn retries(&self) -> int {
        self.retries as int
    }

    /// Between steps the count is below the limit.
    pub closed spec fn wf(&self) -> bool {
        0 <= self.retries < MAX_RETRIES
    }

    /// The number of empty polls in a row so far.
    pub fn empty_polls(&self) -> (n: i32)
        ensures
            n == self.retries(),
    {
        self.retries
    }

    /// A flush that has seen no empty poll yet.
    pub fn new() -> (f: Flush)
        ensures
            f.wf(),
            f.retries() == 0,
    {
        Flush { retries: 0 }
    }

    /// Decides what to do after a poll, and counts empty polls.
    pub fn step(&mut self, outcome: ReceiveOutcome) -> (step: EncoderStep)
        requires
            old(self).wf(),
        ensures
            (final(self).retries(), step) == flush_next(old(self).retries(), outcome),
            !(step is TimedOut) ==> final(self).wf(),
            outcome is Packet ==> step is Write && final(self).retries() == 0,
            outcome is EndOfStream ==> step is Finish && final(self).retries() == old(self).retries(),
            outcome is Failed ==> step is Fail && final(self).retries() == old(self).retries(),
            outcome is TryAgain ==> final(self).retries() == old(self).retries() + 1 && (step is Wait
                || step is TimedOut),
    {
        match outcome {
            ReceiveOutcome::Packet => {
                self.retries = 0;
                EncoderStep::Write
            },
            ReceiveOutcome::EndOfStream => EncoderStep::Finish,
            ReceiveOutcome::TryAgain => {
                self.retries = self.retries + 1;
                if self.retries >= MAX_RETRIES {
                    EncoderStep::TimedOut
                } else {
                    EncoderStep::Wait
                }
            },
            ReceiveOutcome::Failed => EncoderStep::Fail,
        }
    }
}

/// From any count below the limit, `k` empty polls in a row wait while the count stays
/// below the limit, and time out exactly at the poll that brings it to `MAX_RETRIES`.
pub proof fn lemma_empty_polls(retries: int, k: nat)
    requires
        0 <= retries < MAX_RETRIES,
        k >= 1,
    ensures
        after_empty_polls(retries, k) == if retries + k >= MAX_RETRIES {
            EncoderStep::TimedOut
        } else {
            EncoderStep::Wait
        },
    decreases k,
{
    if k > 1 && retries + 1 < MAX_RETRIES {
        lemma_empty_polls(retries + 1, (k - 1) as nat);
    }
}

/// Whatever the count of empty polls so far, the end of the stream finishes the flush and
/// leaves the count as it was, a packet is written and clears the count, an error fails
/// the flush, and an empty poll adds one to the count and waits, unless that brings it to
/// `MAX_RETRIES`, where the flush times out.
pub proof fn lemma_flush_outcomes(retries: int)
    requires
        0 <= retries < MAX_RETRIES,
    ensures
        flush_next(retries, ReceiveOutcome::EndOfStream) == (retries, EncoderStep::Finish),
        flush_next(retries, ReceiveOutcome::Packet) == (0int, EncoderStep::Write),
        flush_next(retries, ReceiveOutcome::Failed) == (retries, EncoderStep::Fail),
        flush_next(retries, ReceiveOutcome::TryAgain).0 == retries + 1,
        flush_next(retries, ReceiveOutcome::TryAgain).1 is TimedOut <==> retries + 1 == MAX_RETRIES,
        flush_next(retries, ReceiveOutcome::TryAgain).1 is Wait <==> retries + 1 < MAX_RETRIES,
{
}

/// A fresh flush gives up after exactly `MAX_RETRIES` empty polls in a row, and not before.
pub proof fn lemma_flush_gives_up_after_max_retries()
    ensures
        forall|k: nat| 1 <= k < MAX_RETRIES ==> after_empty_polls(0, k) is Wait,
        after_empty_polls(0, MAX_RETRIES as nat) is TimedOut,
{
    assert forall|k: nat| 1 <= k < MAX_RETRIES implies after_empty_polls(0, k) is Wait by {
        lemma_empty_polls(0, k);
    }
    lemma_empty_polls(0, MAX_RETRIES as nat);
}

} // verus!
