use vstd::prelude::*;

use crate::framing::{
    concat, feed, frames_of, frames_view, lemma_chunking_irrelevant, rest_of, FrameSplitter,
};
use crate::SerialFrameError;

verus! {

/// Where the read-scan-emit loop of an engine stands.
#[derive(Clone, Copy, Debug, PartialEq, Eq, Structural)]
pub enum LoopState {
    Running,
    StoppedByRequest,
    StoppedByFatalError,
    StoppedByAbandonedConsumer,
}

/// What a look at the stop signal found, without waiting.
#[derive(Clone, Copy, Debug, PartialEq, Eq, Structural)]
pub enum StopPoll {
    /// No stop was asked for yet.
    Empty,
    /// A stop was asked for.
    Requested,
    /// The stop handle is gone: nobody can ask for a stop any more.
    Abandoned,
}

/// What the loop is to do next after a look at the stop signal.
#[derive(Clone, Copy, Debug, PartialEq, Eq, Structural)]
pub enum LoopStep {
    /// Read from the transport, then hand the outcome to `on_read`.
    Read,
    /// Read nothing this time round; look at the stop signal again.
    Idle,
    /// Leave the loop.
    Finish,
}

/// What one bounded read from the transport gave.
#[derive(Debug)]
pub enum ReadOutcome {
    /// These bytes arrived.
    Data(Vec<u8>),
    /// The read timed out: no data was available.
    TimedOut,
    /// The transport failed and cannot be used any more.
    Failed,
}

/// A value that the loop sends to its consumer.
#[derive(Debug)]
pub enum Emission {
    /// A complete frame, separator included.
    Frame(Vec<u8>),
    /// The transport failed.
    Disconnected,
}

/// A read outcome as a mathematical value.
pub enum ReadEvent {
    Data(Seq<u8>),
    TimedOut,
    Failed,
}

/// An emission as a mathematical value.
pub enum Output {
    Frame(Seq<u8>),
    Disconnected,
}

/// Something that the loop learns from the outside.
pub enum Event {
    Poll(StopPoll),
    Read(ReadEvent),
    SendFailed,
}

impl ReadOutcome {
    pub open spec fn view(&self) -> ReadEvent {
        match self {
            ReadOutcome::Data(b) => ReadEvent::Data(b@),
            ReadOutcome::TimedOut => ReadEvent::TimedOut,
            ReadOutcome::Failed => ReadEvent::Failed,
        }
    }
}

impl Emission {
    pub open spec fn view(&self) -> Output {
        match self {
            Emission::Frame(f) => Output::Frame(f@),
            Emission::Disconnected => Output::Disconnected,
        }
    }
}

/// The outputs of a sequence of emissions.
pub open spec fn outputs_view(v: Seq<Emission>) -> Seq<Output> {
    v.map_values(|e: Emission| e@)
}

/// Frames as outputs, in their order.
pub open spec fn frame_outputs(fs: Seq<Seq<u8>>) -> Seq<Output> {
    fs.map_values(|f: Seq<u8>| Output::Frame(f))
}

/// What the loop does after a look at the stop signal, in state `st`.
pub open spec fn poll_step(st: LoopState, poll: StopPoll) -> LoopStep {
    if st != LoopState::Running {
        LoopStep::Finish
    } else {
        match poll {
            StopPoll::Empty => LoopStep::Read,
            StopPoll::Requested => LoopStep::Finish,
            StopPoll::Abandoned => LoopStep::Idle,
        }
    }
}

/// One move of the loop on separator `sep`: from state `st` with `pending` bytes
/// held back, event `e` gives the next state, the bytes held back then, and what
/// is sent to the consumer. A loop that has stopped moves no more.
pub open spec fn next(sep: u8, st: LoopState, pending: Seq<u8>, e: Event) -> (
    LoopState,
    Seq<u8>,
    Seq<Output>,
) {
    if st != LoopState::Running {
        (st, pending, seq![])
    } else {
        match e {
            Event::Poll(StopPoll::Requested) => (LoopState::StoppedByRequest, pending, seq![]),
            Event::Poll(_) => (st, pending, seq![]),
            Event::Read(ReadEvent::Data(b)) => (
                st,
                rest_of(sep, pending + b),
                frame_outputs(frames_of(sep, pending + b)),
            ),
            Event::Read(ReadEvent::TimedOut) => (st, pending, seq![]),
            Event::Read(ReadEvent::Failed) => (
                LoopState::StoppedByFatalError,
                pending,
                seq![Output::Disconnected],
            ),
            Event::SendFailed => (LoopState::StoppedByAbandonedConsumer, pending, seq![]),
        }
    }
}

/// The moves of the loop on `events`, one after another: the last state, the
/// bytes held back then, and everything sent, in order.
pub open spec fn run(sep: u8, st: LoopState, pending: Seq<u8>, events: Seq<Event>) -> (
    LoopState,
    Seq<u8>,
    Seq<Output>,
)
    decreases events.len(),
{
    if events.len() == 0 {
        (st, pending, seq![])
    } else {
        let (st1, p1, o1) = next(sep, st, pending, events[0]);
        let (st2, p2, o2) = run(sep, st1, p1, events.drop_first());
        (st2, p2, o1 + o2)
    }
}

/// Once the loop has stopped, no event moves it or makes it send anything.
pub proof fn lemma_stopped_stays_stopped(sep: u8, st: LoopState, pending: Seq<u8>, events: Seq<Event>)
    requires
        st != LoopState::Running,
    ensures
        run(sep, st, pending, events) == (st, pending, Seq::<Output>::empty()),
    decreases events.len(),
{
    if events.len() > 0 {
        lemma_stopped_stays_stopped(sep, st, pending, events.drop_first());
        assert(Seq::<Output>::empty() + Seq::<Output>::empty() =~= Seq::<Output>::empty());
    }
}

/// A read on which the transport fails sends exactly one `Disconnected`, and
/// nothing more is sent or read after it, whatever the transport would give.
pub proof fn lemma_fatal_read_ends_loop(sep: u8, pending: Seq<u8>, events: Seq<Event>)
    ensures
        run(sep, LoopState::Running, pending, seq![Event::Read(ReadEvent::Failed)] + events)
            == (LoopState::StoppedByFatalError, pending, seq![Output::Disconnected]),
        forall|p: StopPoll| poll_step(LoopState::StoppedByFatalError, p) == LoopStep::Finish,
{
    let all = seq![Event::Read(ReadEvent::Failed)] + events;
    assert(all[0] == Event::Read(ReadEvent::Failed));
    assert(all.drop_first() =~= events);
    lemma_stopped_stays_stopped(sep, LoopState::StoppedByFatalError, pending, events);
    assert(seq![Output::Disconnected] + Seq::<Output>::empty() =~= seq![Output::Disconnected]);
}

/// A stop request seen by a running loop ends it at once: the next step is to
/// leave the loop, nothing more is sent, and every later look finds it stopped.
pub proof fn lemma_stop_request_ends_loop(sep: u8, pending: Seq<u8>, events: Seq<Event>)
    ensures
        poll_step(LoopState::Running, StopPoll::Requested) == LoopStep::Finish,
        run(sep, LoopState::Running, pending, seq![Event::Poll(StopPoll::Requested)] + events)
            == (LoopState::StoppedByRequest, pending, Seq::<Output>::empty()),
        forall|p: StopPoll| poll_step(LoopState::StoppedByRequest, p) == LoopStep::Finish,
{
    let all = seq![Event::Poll(StopPoll::Requested)] + events;
    assert(all[0] == Event::Poll(StopPoll::Requested));
    assert(all.drop_first() =~= events);
    lemma_stopped_stays_stopped(sep, LoopState::StoppedByRequest, pending, events);
    assert(Seq::<Output>::empty() + Seq::<Output>::empty() =~= Seq::<Output>::empty());
}

/// The reads that deliver `chunks`, one after another.
pub open spec fn data_events(chunks: Seq<Seq<u8>>) -> Seq<Event> {
    chunks.map_values(|c: Seq<u8>| Event::Read(ReadEvent::Data(c)))
}

/// Running the loop on `a + b` is running it on `a`, then on `b`.
pub proof fn lemma_run_append(sep: u8, st: LoopState, pending: Seq<u8>, a: Seq<Event>, b: Seq<Event>)
    ensures
        ({
            let (st1, p1, o1) = run(sep, st, pending, a);
            let (st2, p2, o2) = run(sep, st1, p1, b);
            run(sep, st, pending, a + b) == (st2, p2, o1 + o2)
        }),
    decreases a.len(),
{
    if a.len() == 0 {
        assert(a + b =~= b);
        let o2 = run(sep, st, pending, b).2;
        assert(Seq::<Output>::empty() + o2 =~= o2);
    } else {
        assert((a + b)[0] == a[0]);
        assert((a + b).drop_first() =~= a.drop_first() + b);
        let (st1, p1, o1) = next(sep, st, pending, a[0]);
        lemma_run_append(sep, st1, p1, a.drop_first(), b);
        let (sa, pa, oa) = run(sep, st1, p1, a.drop_first());
        let ob = run(sep, sa, pa, b).2;
        assert(o1 + (oa + ob) =~= (o1 + oa) + ob);
    }
}

/// A running loop, fresh, that receives the stream in any chunks sends exactly
/// the frames of the whole stream, in stream order, and holds back what follows
/// the last separator.
pub proof fn lemma_loop_frames_any_chunking(sep: u8, chunks: Seq<Seq<u8>>)
    ensures
        run(sep, LoopState::Running, seq![], data_events(chunks)) == (
            LoopState::Running,
            rest_of(sep, concat(chunks)),
            frame_outputs(frames_of(sep, concat(chunks))),
        ),
{
    lemma_loop_feeds(sep, chunks);
    lemma_chunking_irrelevant(sep, chunks);
}

/// A running loop, fresh, that receives `chunks` sends the frames and holds back
/// the bytes that a splitter fed the same chunks gives.
pub proof fn lemma_loop_feeds(sep: u8, chunks: Seq<Seq<u8>>)
    ensures
        run(sep, LoopState::Running, seq![], data_events(chunks)) == (
            LoopState::Running,
            feed(sep, chunks).1,
            frame_outputs(feed(sep, chunks).0),
        ),
    decreases chunks.len(),
{
    if chunks.len() == 0 {
        assert(data_events(chunks) =~= Seq::<Event>::empty());
        assert(frame_outputs(Seq::<Seq<u8>>::empty()) =~= Seq::<Output>::empty());
    } else {
        let init = chunks.drop_last();
        let last = chunks.last();
        lemma_loop_feeds(sep, init);
        let e = Event::Read(ReadEvent::Data(last));
        assert(data_events(chunks) =~= data_events(init) + seq![e]);
        lemma_run_append(sep, LoopState::Running, seq![], data_events(init), seq![e]);
        let (fs, p) = feed(sep, init);
        let single = seq![e];
        assert(single[0] == e);
        assert(single.drop_first() =~= Seq::<Event>::empty());
        let g = frames_of(sep, p + last);
        assert(frame_outputs(fs + g) =~= frame_outputs(fs) + frame_outputs(g));
        assert(frame_outputs(g) + Seq::<Output>::empty() =~= frame_outputs(g));
        assert(next(sep, LoopState::Running, p, e) == (
            LoopState::Running,
            rest_of(sep, p + last),
            frame_outputs(g),
        ));
        assert(run(sep, LoopState::Running, rest_of(sep, p + last), Seq::<Event>::empty()) == (
            LoopState::Running,
            rest_of(sep, p + last),
            Seq::<Output>::empty(),
        ));
        assert(run(sep, LoopState::Running, p, single) == (
            LoopState::Running,
            rest_of(sep, p + last),
            frame_outputs(g),
        ));
        assert(feed(sep, chunks) == (fs + g, rest_of(sep, p + last)));
    }
}

/// The decisions of the frame engine's background loop: when to read, what to
/// send, when to end. The loop around it performs the reads and the sends.
pub struct FrameEngine {
    splitter: FrameSplitter,
    state: LoopState,
}

impl FrameEngine {
    pub closed spec fn sep(&self) -> u8 {
        self.splitter.sep()
    }

    pub closed spec fn pending_bytes(&self) -> Seq<u8> {
        self.splitter.pending_bytes()
    }

    pub closed spec fn loop_state(&self) -> LoopState {
        self.state
    }

    pub closed spec fn wf(&self) -> bool {
        self.splitter.wf()
    }

    /// A running loop on `separator` with nothing held back.
    pub fn new(separator: u8) -> (r: FrameEngine)
        ensures
            r.wf(),
            r.sep() == separator,
            r.pending_bytes() == Seq::<u8>::empty(),
            r.loop_state() == LoopState::Running,
    {
        FrameEngine { splitter: FrameSplitter::new(separator), state: LoopState::Running }
    }

    /// The state of the loop.
    pub fn state(&self) -> (r: LoopState)
        ensures
            r == self.loop_state(),
    {
        self.state
    }

    /// Whether the loop goes on.
    pub fn is_running(&self) -> (r: bool)
        ensures
            r == (self.loop_state() == LoopState::Running),
    {
        self.state == LoopState::Running
    }

    /// Takes in what a look at the stop signal found, and says what to do next.
    pub fn on_stop_poll(&mut self, poll: StopPoll) -> (step: LoopStep)
        requires
            old(self).wf(),
        ensures
            final(self).wf(),
            final(self).sep() == old(self).sep(),
            step == poll_step(old(self).loop_state(), poll),
            (final(self).loop_state(), final(self).pending_bytes(), Seq::<Output>::empty())
                == next(old(self).sep(), old(self).loop_state(), old(self).pending_bytes(), Event::Poll(poll)),
    {
        if self.state != LoopState::Running {
            return LoopStep::Finish;
        }
        match poll {
            StopPoll::Empty => LoopStep::Read,
            StopPoll::Requested => {
                self.state = LoopState::StoppedByRequest;
                LoopStep::Finish
            },
            StopPoll::Abandoned => LoopStep::Idle,
        }
    }

    /// Takes in the outcome of a read, and gives what is to be sent, in order.
    pub fn on_read(&mut self, outcome: ReadOutcome) -> (out: Vec<Emission>)
        requires
            old(self).wf(),
        ensures
            final(self).wf(),
            final(self).sep() == old(self).sep(),
            (final(self).loop_state(), final(self).pending_bytes(), outputs_view(out@))
                == next(old(self).sep(), old(self).loop_state(), old(self).pending_bytes(), Event::Read(outcome@)),
    {
        let mut out: Vec<Emission> = Vec::new();
        if self.state != LoopState::Running {
            assert(outputs_view(out@) =~= Seq::<Output>::empty());
            return out;
        }
        match outcome {
            ReadOutcome::Data(bytes) => {
                let ghost sep = self.splitter.sep();
                let ghost all = self.splitter.pending_bytes() + bytes@;
                let frames = self.splitter.push_chunk(bytes.as_slice());
                let ghost fs = frames_of(sep, all);
                for frame in it: frames
                    invariant
                        frames_view(it.seq()) == fs,
                        fs == frames_of(sep, all),
                        outputs_view(out@) == frame_outputs(fs.subrange(0, it.index())),
                {
                    let ghost i = it.index();
                    assert(frame@ == frames_view(it.seq())[i]);
                    let ghost before = out@;
                    out.push(Emission::Frame(frame));
                    assert(outputs_view(out@) =~= outputs_view(before).push(Output::Frame(fs[i])));
                    assert(fs.subrange(0, i + 1) =~= fs.subrange(0, i).push(fs[i]));
                    assert(frame_outputs(fs.subrange(0, i + 1)) =~= frame_outputs(fs.subrange(0, i)).push(Output::Frame(fs[i])));
                }
                assert(fs.subrange(0, fs.len() as int) =~= fs);
            },
            ReadOutcome::TimedOut => {
                assert(outputs_view(out@) =~= Seq::<Output>::empty());
            },
            ReadOutcome::Failed => {
                out.push(Emission::Disconnected);
                assert(outputs_view(out@) =~= seq![Output::Disconnected]);
                self.state = LoopState::StoppedByFatalError;
            },
        }
        out
    }

    /// Takes in that a send to the consumer failed: the consumer is gone, and the
    /// loop ends.
    pub fn on_send_failed(&mut self)
        requires
            old(self).wf(),
        ensures
            final(self).wf(),
            final(self).sep() == old(self).sep(),
            (final(self).loop_state(), final(self).pending_bytes(), Seq::<Output>::empty())
                == next(old(self).sep(), old(self).loop_state(), old(self).pending_bytes(), Event::SendFailed),
    {
        if self.state == LoopState::Running {
            self.state = LoopState::StoppedByAbandonedConsumer;
        }
    }
}

} // verus!
