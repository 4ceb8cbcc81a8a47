//! Model of the publish/subscribe bus contract that the daemon relies on:
//! prefix-based topic filtering and the per-message decision of a channel
//! worker.
//!
//! The transport delivers a published message to a subscriber iff the
//! subscribed prefix is a byte prefix of the message's topic frame. This is a
//! prefix match, not an exact match: a worker subscribed to channel `orders`
//! also receives messages published under topic `ordersclosed`. That is a
//! configuration hazard, not a bug in this library: channel names must not be
//! prefixes of one another, or publishers must append an explicit boundary
//! byte to the topic.

use vstd::prelude::*;
use crate::bytes::starts_with;

verus! {

/// True iff a subscriber with subscription prefix `prefix` receives a message
/// whose topic frame is `topic`. See the module doc for the prefix-match
/// hazard.
pub fn topic_matches(topic: &[u8], prefix: &[u8]) -> (r: bool)
    ensures
        r == prefix@.is_prefix_of(topic@),
{
    starts_with(topic, prefix)
}

/// The channels, among `channels` and in their order, whose workers receive a
/// message published under `topic`.
pub fn receiving_channels(channels: &Vec<Vec<u8>>, topic: &[u8]) -> (r: Vec<Vec<u8>>)
    ensures
        r@.map_values(|c: Vec<u8>| c@)
            == channels@.map_values(|c: Vec<u8>| c@).filter(|c: Seq<u8>| c.is_prefix_of(topic@)),
{
    let ghost pred = |c: Seq<u8>| c.is_prefix_of(topic@);
    let mut r: Vec<Vec<u8>> = Vec::new();
    let mut i: usize = 0;
    while i < channels.len()
        invariant
            i <= channels@.len(),
            r@.map_values(|c: Vec<u8>| c@)
                == channels@.map_values(|c: Vec<u8>| c@).take(i as int).filter(pred),
            pred == (|c: Seq<u8>| c.is_prefix_of(topic@)),
        decreases channels@.len() - i,
    {
        let ghost views = channels@.map_values(|c: Vec<u8>| c@);
        let ghost before = r@.map_values(|c: Vec<u8>| c@);
        proof {
            assert(views.take(i + 1) =~= views.take(i as int).push(views[i as int]));
            lemma_filter_push(views.take(i as int), views[i as int], pred);
        }
        let matched = topic_matches(topic, channels[i].as_slice());
        if matched {
            r.push(crate::bytes::copy_range(channels[i].as_slice(), 0, channels[i].len()));
            proof {
                assert(channels@[i as int]@.subrange(0, channels@[i as int]@.len() as int)
                    =~= channels@[i as int]@);
                assert(r@.map_values(|c: Vec<u8>| c@) =~= before.push(views[i as int]));
            }
        }
        i += 1;
    }
    proof {
        assert(channels@.map_values(|c: Vec<u8>| c@).take(channels@.len() as int)
            =~= channels@.map_values(|c: Vec<u8>| c@));
    }
    r
}

/// Filtering a sequence extended by one element keeps the old selection and
/// appends the new element exactly when it satisfies the predicate.
proof fn lemma_filter_push<A>(s: Seq<A>, x: A, pred: spec_fn(A) -> bool)
    ensures
        s.push(x).filter(pred) == (if pred(x) {
            s.filter(pred).push(x)
        } else {
            s.filter(pred)
        }),
{
    reveal(Seq::filter);
    assert(s.push(x).drop_last() =~= s);
    assert(s.push(x).last() == x);
}

/// The socket roles the daemon asks of the transport. The relay owns one
/// bound `PUB` socket; each channel worker owns one `SUB` socket subscribed
/// to its channel name. `PUSH` and `PULL` are the transport's one-directional
/// pipeline pair. The transport's wire constants for these roles belong to
/// the daemon's binding, not to this model.
#[derive(Clone, Copy, Debug, PartialEq, Eq, Structural)]
pub enum SocketType {
    PUB,
    SUB,
    PUSH,
    PULL,
}

/// Where a channel worker stands in one message: before its topic frame, or
/// before the payload frame a topic frame announced.
#[derive(Clone, Copy, Debug, PartialEq, Eq, Structural)]
pub enum WorkerState {
    /// The next frame is a message's first (topic) frame.
    AwaitTopic,
    /// The next frame is the payload to append.
    AwaitPayload,
}

/// What a channel worker does with the frame it just received.
#[derive(Clone, Copy, Debug, PartialEq, Eq, Structural)]
pub enum WorkerAction {
    /// A topic frame with nothing following: a degenerate single-frame
    /// publish. The worker releases it and keeps running; this is not an
    /// error.
    Discard,
    /// A topic frame announcing a payload: nothing is written yet.
    AwaitMore,
    /// The payload frame: append its bytes to the channel's segment.
    AppendPayload,
}

/// How one received frame moves a channel worker on.
pub open spec fn spec_worker_step(state: WorkerState, more: bool) -> (WorkerState, WorkerAction) {
    match state {
        WorkerState::AwaitTopic => if more {
            (WorkerState::AwaitPayload, WorkerAction::AwaitMore)
        } else {
            (WorkerState::AwaitTopic, WorkerAction::Discard)
        },
        WorkerState::AwaitPayload => (WorkerState::AwaitTopic, WorkerAction::AppendPayload),
    }
}

/// The worker loop's whole decision, taken once per received frame with that
/// frame's "more frames follow" flag: a first frame announcing nothing is
/// discarded silently; a first frame announcing more makes the next frame the
/// payload; the payload frame is appended whatever its own flag says. The
/// daemon performs the action and feeds the next frame back in; any transport
/// or writer error aborts the worker instead.
pub fn worker_step(state: WorkerState, more: bool) -> (r: (WorkerState, WorkerAction))
    ensures
        r == spec_worker_step(state, more),
{
    match state {
        WorkerState::AwaitTopic => if more {
            (WorkerState::AwaitPayload, WorkerAction::AwaitMore)
        } else {
            (WorkerState::AwaitTopic, WorkerAction::Discard)
        },
        WorkerState::AwaitPayload => (WorkerState::AwaitTopic, WorkerAction::AppendPayload),
    }
}

/// The payloads a worker appends when it is fed the frames `frames` (each
/// frame's "more" flag and bytes) from a fresh state: exactly the bytes of
/// every frame that directly follows a more-flagged first frame, in order.
pub open spec fn spec_worker_appends(frames: Seq<(bool, Seq<u8>)>) -> Seq<Seq<u8>> {
    spec_worker_run(WorkerState::AwaitTopic, frames)
}

/// The payloads appended from `state` on, over the frames still to come.
pub open spec fn spec_worker_run(state: WorkerState, frames: Seq<(bool, Seq<u8>)>) -> Seq<Seq<u8>>
    decreases frames.len(),
{
    if frames.len() == 0 {
        Seq::empty()
    } else {
        let (next, action) = spec_worker_step(state, frames.first().0);
        let rest = spec_worker_run(next, frames.drop_first());
        if action == WorkerAction::AppendPayload {
            seq![frames.first().1] + rest
        } else {
            rest
        }
    }
}

/// Replays a finite sequence of frames through the worker loop from a fresh
/// state and collects what gets appended. The daemon's live loop takes the
/// same decisions, one blocking receive at a time.
pub fn worker_replay(frames: &Vec<(bool, Vec<u8>)>) -> (r: Vec<Vec<u8>>)
    ensures
        r@.map_values(|v: Vec<u8>| v@) == spec_worker_appends(
            frames@.map_values(|f: (bool, Vec<u8>)| (f.0, f.1@)),
        ),
{
    let ghost gframes = frames@.map_values(|f: (bool, Vec<u8>)| (f.0, f.1@));
    let mut state = WorkerState::AwaitTopic;
    let mut out: Vec<Vec<u8>> = Vec::new();
    let mut i: usize = 0;
    proof {
        assert(gframes.skip(0) =~= gframes);
        assert(out@.map_values(|v: Vec<u8>| v@) + spec_worker_run(state, gframes)
            =~= spec_worker_run(state, gframes));
    }
    while i < frames.len()
        invariant
            i <= frames@.len(),
            gframes == frames@.map_values(|f: (bool, Vec<u8>)| (f.0, f.1@)),
            spec_worker_appends(gframes) == out@.map_values(|v: Vec<u8>| v@)
                + spec_worker_run(state, gframes.skip(i as int)),
        decreases frames@.len() - i,
    {
        let f = &frames[i];
        let ghost before = out@.map_values(|v: Vec<u8>| v@);
        let ghost suffix = gframes.skip(i as int);
        proof {
            assert(suffix.first() == gframes[i as int]);
            assert(suffix.drop_first() =~= gframes.skip(i + 1));
        }
        let (next, action) = worker_step(state, f.0);
        if action == WorkerAction::AppendPayload {
            out.push(crate::bytes::copy_range(f.1.as_slice(), 0, f.1.len()));
            proof {
                assert(frames@[i as int].1@.subrange(0, frames@[i as int].1@.len() as int)
                    =~= frames@[i as int].1@);
                assert(out@.map_values(|v: Vec<u8>| v@) =~= before.push(gframes[i as int].1));
                assert(before.push(gframes[i as int].1) + spec_worker_run(next, gframes.skip(i + 1))
                    =~= before + (seq![suffix.first().1] + spec_worker_run(
                        next,
                        suffix.drop_first(),
                    )));
            }
        }
        state = next;
        i += 1;
    }
    proof {
        assert(gframes.skip(i as int) =~= Seq::<(bool, Seq<u8>)>::empty());
        assert(out@.map_values(|v: Vec<u8>| v@) + Seq::<Seq<u8>>::empty()
            =~= out@.map_values(|v: Vec<u8>| v@));
    }
    out
}

} // verus!
