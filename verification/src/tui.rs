use crate::key_event::KeyEvent;
use vstd::prelude::*;

verus! {

/// What the event loop hands to the application.
#[derive(Debug, Clone, Copy, PartialEq, Eq, Structural)]
pub enum Event {
    /// A key was pressed.
    Key(KeyEvent),
    /// The timer says that the torrent list is due for a refresh.
    UpdateTorrentList,
}

/// How a key event came about.
#[derive(Debug, Clone, Copy, PartialEq, Eq, Structural)]
pub enum KeyEventKind {
    Press,
    Repeat,
    Release,
}

/// What one read of the terminal gave.
#[derive(Debug, Clone, Copy, PartialEq, Eq, Structural)]
pub enum Input {
    /// A key event.
    Key { event: KeyEvent, kind: KeyEventKind },
    /// An event of another sort: the mouse, a resize, focus, a paste.
    Other,
    /// The read failed.
    Failed,
    /// The terminal will give no more events.
    Closed,
}

/// The source that the loop found ready when it woke up.
#[derive(Debug, Clone, Copy, PartialEq, Eq, Structural)]
pub enum Ready {
    /// The session was cancelled.
    Cancelled,
    /// The timer ticked.
    Tick,
    /// The terminal has input.
    Input(Input),
}

/// What the loop does once a source is ready.
#[derive(Debug, Clone, Copy, PartialEq, Eq, Structural)]
pub enum Step {
    /// Leave the loop.
    Stop,
    /// Wait again, with nothing sent.
    Skip,
    /// Put the event into the queue, then go on as `after_send` says.
    Forward(Event),
}

/// The number of events that the queue between the loop and the
/// application holds before the loop has to wait.
pub const EVENT_QUEUE_CAPACITY: usize = 32;

/// The loop's decision. A cancellation stops it; a tick is forwarded; of
/// the terminal's input only a key press is forwarded, other events are
/// passed over, and a failed or closed terminal stops the loop.
pub open spec fn spec_decide(ready: Ready) -> Step {
    match ready {
        Ready::Cancelled => Step::Stop,
        Ready::Tick => Step::Forward(Event::UpdateTorrentList),
        Ready::Input(Input::Key { event, kind }) => if kind == KeyEventKind::Press {
            Step::Forward(Event::Key(event))
        } else {
            Step::Skip
        },
        Ready::Input(Input::Other) => Step::Skip,
        Ready::Input(Input::Failed) => Step::Stop,
        Ready::Input(Input::Closed) => Step::Stop,
    }
}

/// Decides what the loop does about the source that is ready.
pub fn decide(ready: Ready) -> (r: Step)
    ensures
        r == spec_decide(ready),
{
    match ready {
        Ready::Cancelled => Step::Stop,
        Ready::Tick => Step::Forward(Event::UpdateTorrentList),
        Ready::Input(Input::Key { event, kind }) => match kind {
            KeyEventKind::Press => Step::Forward(Event::Key(event)),
            _ => Step::Skip,
        },
        Ready::Input(Input::Other) => Step::Skip,
        Ready::Input(Input::Failed) => Step::Stop,
        Ready::Input(Input::Closed) => Step::Stop,
    }
}

/// Whether the loop goes on after it tried to put an event into the
/// queue: it does while the application still reads the queue.
pub fn after_send(delivered: bool) -> (r: bool)
    ensures
        r == delivered,
{
    delivered
}

/// The events that the loop forwards when its sources become ready in the
/// order of `ready` and the application keeps reading: those of each
/// source in that source's order, up to the first that stops the loop.
pub open spec fn forwarded(ready: Seq<Ready>) -> Seq<Event>
    decreases ready.len(),
{
    if ready.len() == 0 {
        Seq::empty()
    } else {
        match spec_decide(ready[0]) {
            Step::Stop => Seq::empty(),
            Step::Skip => forwarded(ready.skip(1)),
            Step::Forward(event) => seq![event] + forwarded(ready.skip(1)),
        }
    }
}

/// Runs the loop's decisions over a record of what became ready, and
/// returns what it forwards.
pub fn replay(ready: &Vec<Ready>) -> (r: Vec<Event>)
    ensures
        r@ == forwarded(ready@),
{
    let mut out: Vec<Event> = Vec::new();
    let mut i: usize = 0;
    assert(ready@.skip(0) =~= ready@);
    assert(out@ + forwarded(ready@) =~= forwarded(ready@));
    while i < ready.len()
        invariant
            i <= ready@.len(),
            forwarded(ready@) == out@ + forwarded(ready@.skip(i as int)),
        decreases ready@.len() - i,
    {
        let ghost left = ready@.skip(i as int);
        assert(left[0] == ready@[i as int]);
        assert(left.skip(1) =~= ready@.skip(i + 1));
        match decide(ready[i]) {
            Step::Stop => {
                assert(out@ + Seq::<Event>::empty() =~= out@);
                return out;
            },
            Step::Skip => {},
            Step::Forward(event) => {
                assert(out@ + (seq![event] + forwarded(left.skip(1))) =~= out@.push(event)
                    + forwarded(left.skip(1)));
                out.push(event);
            },
        }
        i += 1;
    }
    assert(ready@.skip(i as int).len() == 0);
    assert(out@ + Seq::<Event>::empty() =~= out@);
    out
}

/// Once the session is cancelled the loop forwards nothing more, whatever
/// input or ticks are ready after that.
pub proof fn lemma_nothing_after_cancel(before: Seq<Ready>, later: Seq<Ready>)
    ensures
        forwarded(before + seq![Ready::Cancelled] + later) == forwarded(before),
    decreases before.len(),
{
    let all = before + seq![Ready::Cancelled] + later;
    if before.len() == 0 {
        assert(all[0] == Ready::Cancelled);
    } else {
        assert(all[0] == before[0]);
        assert(all.skip(1) =~= before.skip(1) + seq![Ready::Cancelled] + later);
        lemma_nothing_after_cancel(before.skip(1), later);
    }
}


/// While nothing stops the loop it loses nothing and keeps the order: what
/// it forwards of two stretches of readiness is what it forwards of the
/// first, followed by what it forwards of the second.
pub proof fn lemma_forwarded_in_order(first: Seq<Ready>, second: Seq<Ready>)
    requires
        forall|i: int| 0 <= i < first.len() ==> spec_decide(#[trigger] first[i]) != Step::Stop,
    ensures
        forwarded(first + second) == forwarded(first) + forwarded(second),
    decreases first.len(),
{
    let all = first + second;
    if first.len() == 0 {
        assert(all =~= second);
        assert(forwarded(first) + forwarded(second) =~= forwarded(second));
    } else {
        assert(all[0] == first[0]);
        assert(all.skip(1) =~= first.skip(1) + second);
        assert forall|i: int| 0 <= i < first.skip(1).len() implies spec_decide(
            #[trigger] first.skip(1)[i],
        ) != Step::Stop by {
            assert(first.skip(1)[i] == first[i + 1]);
        }
        lemma_forwarded_in_order(first.skip(1), second);
        match spec_decide(first[0]) {
            Step::Forward(event) => {
                assert(seq![event] + (forwarded(first.skip(1)) + forwarded(second)) =~= (seq![
                    event,
                ] + forwarded(first.skip(1))) + forwarded(second));
            },
            _ => {},
        }
    }
}

} // verus!
