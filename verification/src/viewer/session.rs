//! How a viewer's session with a server proceeds.
use vstd::prelude::*;
use crate::protocol::{lemma_modified, modified, shows, shows_all, shows_modified, unmodified, Chunk};
use crate::protocol::{ChunkCoord, ClientMessage, ServerMessage, WireChunk};
use crate::state::{updates, SimState};
use crate::viewer::mirror::{delta_slot, known_width, mirrored, overlaid, status_of, update_for, Mirror};
use crate::viewer::mirror::{NetworkStatus, Update, UserEvent};
use crate::world::placed;

verus! {

/// How far a session has come.
#[derive(Clone, Copy, Debug, PartialEq, Eq, Structural)]
pub enum SessionPhase {
    /// The greeting has been asked for.
    Greeting,
    /// The world has been asked for.
    Loading,
    /// The server pushes messages.
    Live,
}

/// Why a session cannot go on.
#[derive(Clone, Copy, Debug, PartialEq, Eq, Structural)]
pub enum SessionError {
    /// The first message was not a greeting.
    UnexpectedFirstMessage,
    /// The answer to a subscription was not a chunk batch.
    ExpectedChunkBatch,
}

/// How a session ended.
#[derive(Debug)]
pub enum SessionEnd {
    ServerClosed,
    /// The viewer ended it.
    Shutdown,
    /// An error ended it; its text.
    Failed(String),
}

/// The request that a phase begins with.
pub fn request_for(phase: SessionPhase) -> (request: Option<ClientMessage>)
    ensures
        request == (match phase {
            SessionPhase::Greeting => Some(ClientMessage::Hello),
            SessionPhase::Loading => Some(ClientMessage::Subscribe),
            SessionPhase::Live => None,
        }),
{
    match phase {
        SessionPhase::Greeting => Some(ClientMessage::Hello),
        SessionPhase::Loading => Some(ClientMessage::Subscribe),
        SessionPhase::Live => None,
    }
}

/// What the viewer hears of a message.
pub open spec fn event_of(msg: ServerMessage) -> UserEvent {
    match msg {
        ServerMessage::Welcome { .. } => UserEvent::Network(status_of(msg)->0),
        ServerMessage::ChunkBatch { tick, chunks } => UserEvent::Chunks { tick, chunks },
        ServerMessage::TickUpdate { tick, chunks } => UserEvent::ChunksDelta { tick, chunks },
    }
}

/// What a message of the server does in a phase: the session goes on in the next
/// phase and the viewer hears of the message, or the session ends.
pub open spec fn received(phase: SessionPhase, msg: ServerMessage) -> Result<
    (SessionPhase, UserEvent),
    SessionError,
> {
    match (phase, msg) {
        (SessionPhase::Greeting, ServerMessage::Welcome { .. }) => Ok(
            (SessionPhase::Loading, event_of(msg)),
        ),
        (SessionPhase::Greeting, _) => Err(SessionError::UnexpectedFirstMessage),
        (SessionPhase::Loading, ServerMessage::ChunkBatch { .. }) => Ok(
            (SessionPhase::Live, event_of(msg)),
        ),
        (SessionPhase::Loading, _) => Err(SessionError::ExpectedChunkBatch),
        (SessionPhase::Live, _) => Ok((SessionPhase::Live, event_of(msg))),
    }
}

fn to_event(msg: ServerMessage) -> (event: UserEvent)
    ensures
        event == event_of(msg),
{
    match msg {
        ServerMessage::Welcome {
            world_chunks_x,
            world_chunks_y,
            paused,
            tick_hz,
            tick_rate_limited,
            tick,
            seed,
            sim_params,
            world_gen_params,
        } => UserEvent::Network(
            NetworkStatus::Connected {
                world_chunks_x,
                world_chunks_y,
                paused,
                tick_hz,
                tick_rate_limited,
                tick,
                seed,
                sim_params,
                world_gen_params,
            },
        ),
        ServerMessage::ChunkBatch { tick, chunks } => UserEvent::Chunks { tick, chunks },
        ServerMessage::TickUpdate { tick, chunks } => UserEvent::ChunksDelta { tick, chunks },
    }
}

/// Take a message of the server in.
pub fn on_message(phase: SessionPhase, msg: ServerMessage) -> (outcome: Result<
    (SessionPhase, UserEvent),
    SessionError,
>)
    ensures
        outcome == received(phase, msg),
{
    match phase {
        SessionPhase::Greeting => match &msg {
            ServerMessage::Welcome { .. } => Ok((SessionPhase::Loading, to_event(msg))),
            _ => Err(SessionError::UnexpectedFirstMessage),
        },
        SessionPhase::Loading => match &msg {
            ServerMessage::ChunkBatch { .. } => Ok((SessionPhase::Live, to_event(msg))),
            _ => Err(SessionError::ExpectedChunkBatch),
        },
        SessionPhase::Live => Ok((SessionPhase::Live, to_event(msg))),
    }
}

/// The reason to show while reconnecting after a session; none when the viewer is
/// to stop.
pub fn reconnect_reason(end: SessionEnd) -> (reason: Option<String>)
    ensures
        match end {
            SessionEnd::Shutdown => reason is None,
            SessionEnd::ServerClosed => reason matches Some(r) && r@ == "server closed connection"@,
            SessionEnd::Failed(text) => reason == Some(text),
        },
{
    match end {
        SessionEnd::Shutdown => None,
        SessionEnd::ServerClosed => Some("server closed connection".to_owned()),
        SessionEnd::Failed(text) => Some(text),
    }
}

/// A viewer that hears a greeting shows the state of the server's controls.
pub proof fn lemma_viewer_mirrors_controls(s: SimState, before: Mirror, after: Mirror)
    requires
        mirrored(before, event_of(s.greeting()), after),
    ensures
        after.sim_paused == s.control.paused,
        after.sim_tick_hz == s.control.tick_hz,
        after.sim_tick_rate_limited == s.control.tick_rate_limited,
        after.sim_tick == s.current_tick,
        after.sim_params == s.params,
        after.world_gen_params == s.world_gen_params,
        known_width(after.network) == Some(s.chunks_x),
        after.chunks == before.chunks,
{
}

/// The chunks after part of an update: those that the update has reached show the
/// server's world, the others are as they were.
proof fn lemma_overlaid_update(
    s: SimState,
    shown: Seq<WireChunk>,
    chunks: Seq<WireChunk>,
    update: Seq<WireChunk>,
    n: nat,
)
    requires
        s.wf(),
        placed(s.world@, s.chunks_x),
        shows_modified(update, shown, s.world@),
        chunks.len() == s.world.len(),
        n <= update.len(),
    ensures
        overlaid(chunks, Some(s.chunks_x), update, n).len() == chunks.len(),
        forall|i: int|
            0 <= i < chunks.len() ==> {
                let m = modified(shown, s.world@, s.world@.len());
                let now = #[trigger] overlaid(chunks, Some(s.chunks_x), update, n)[i];
                if m.take(n as int).contains(i) {
                    shows(now, s.world@[i])
                } else {
                    now == chunks[i]
                }
            },
    decreases n,
{
    let width = Some(s.chunks_x);
    let m = modified(shown, s.world@, s.world@.len());
    if n > 0 {
        lemma_overlaid_update(s, shown, chunks, update, (n - 1) as nat);
        lemma_modified(shown, s.world@, s.world@.len());
        let before = overlaid(chunks, width, update, (n - 1) as nat);
        let at = m[n - 1];
        assert(shows(update[n - 1], s.world@[at]));
        let coord = update[n - 1].coord;
        let cx = s.chunks_x as int;
        assert(0 < cx) by (nonlinear_arith)
            requires
                0 <= at < cx * s.chunks_y,
                0 <= cx,
                0 <= s.chunks_y,
        ;
        assert(coord.y * cx + coord.x == at && coord.x >= 0 && coord.y >= 0) by (nonlinear_arith)
            requires
                0 < cx,
                0 <= at,
                coord.x == at % cx,
                coord.y == at / cx,
        ;
        assert(delta_slot(before, width, coord) == Some(at));
        let now = overlaid(chunks, width, update, n);
        assert(now == before.update(at, update[n - 1]));
        assert forall|i: int| 0 <= i < chunks.len() implies (if m.take(n as int).contains(i) {
            shows(#[trigger] now[i], s.world@[i])
        } else {
            now[i] == chunks[i]
        }) by {
            let less = m.take(n - 1);
            let more = m.take(n as int);
            if i == at {
                assert(more[n - 1] == at);
            } else {
                assert(now[i] == before[i]);
                if less.contains(i) {
                    let k = choose|k: int| 0 <= k < less.len() && less[k] == i;
                    assert(more[k] == i);
                }
                if more.contains(i) {
                    let k = choose|k: int| 0 <= k < more.len() && more[k] == i;
                    assert(less[k] == i);
                }
            }
        }
    }
}

/// A viewer that shows an earlier world and hears what has changed since shows the
/// server's world, though only the changed chunks were sent.
pub proof fn lemma_viewer_follows_ticks(
    s: SimState,
    earlier: Seq<Chunk>,
    shown: Seq<WireChunk>,
    msg: ServerMessage,
    before: Mirror,
    after: Mirror,
)
    requires
        s.wf(),
        placed(s.world@, s.chunks_x),
        earlier.len() == s.world.len(),
        shows_all(shown, earlier),
        shows_all(before.chunks@, earlier),
        known_width(before.network) == Some(s.chunks_x),
        updates(msg, s, shown),
        mirrored(before, event_of(msg), after),
    ensures
        shows_all(after.chunks@, s.world@),
        after.sim_tick == s.current_tick,
{
    let update = msg->TickUpdate_chunks@;
    let m = modified(shown, s.world@, s.world@.len());
    lemma_modified(shown, s.world@, s.world@.len());
    lemma_overlaid_update(s, shown, before.chunks@, update, update.len());
    assert(m.take(m.len() as int) =~= m);
    assert forall|i: int| 0 <= i < s.world.len() implies shows(
        #[trigger] after.chunks@[i],
        s.world@[i],
    ) by {
        if !m.contains(i) {
            assert(unmodified(shown, s.world@, i));
            assert(shows(shown[i], earlier[i]));
            assert(shows(before.chunks@[i], earlier[i]));
            assert(before.chunks@[i].cells@ =~= shown[i].cells@);
        }
    }
}

/// A viewer that hears a chunk batch shows the server's world.
pub proof fn lemma_viewer_mirrors_world(s: SimState, msg: ServerMessage, before: Mirror, after: Mirror)
    requires
        msg matches ServerMessage::ChunkBatch { tick, chunks } && tick == s.current_tick && shows_all(
            chunks@,
            s.world@,
        ),
        mirrored(before, event_of(msg), after),
    ensures
        shows_all(after.chunks@, s.world@),
        after.sim_tick == s.current_tick,
{
}

/// A session goes through its phases in order: a greeting comes first, then the whole world,
/// then anything; a message out of order ends it with the error of its phase.
pub proof fn lemma_sessions_greet_load_and_live(phase: SessionPhase, msg: ServerMessage)
    ensures
        phase == SessionPhase::Greeting ==> match received(phase, msg) {
            Ok((next, _)) => msg is Welcome && next == SessionPhase::Loading,
            Err(e) => !(msg is Welcome) && e == SessionError::UnexpectedFirstMessage,
        },
        phase == SessionPhase::Loading ==> match received(phase, msg) {
            Ok((next, _)) => msg is ChunkBatch && next == SessionPhase::Live,
            Err(e) => !(msg is ChunkBatch) && e == SessionError::ExpectedChunkBatch,
        },
        phase == SessionPhase::Live ==> (received(phase, msg) matches Ok((next, _)) && next
            == SessionPhase::Live),
        received(phase, msg) matches Ok((_, event)) ==> match msg {
            ServerMessage::ChunkBatch { tick: t, chunks: all } => event matches UserEvent::Chunks {
                tick,
                chunks,
            } && tick == t && chunks == all,
            ServerMessage::TickUpdate { tick: t, chunks: some } => {
                event matches UserEvent::ChunksDelta { tick, chunks } && tick == t && chunks == some
            },
            ServerMessage::Welcome { world_chunks_x: x, world_chunks_y: y, seed: s, .. } => {
                event matches UserEvent::Network(NetworkStatus::Connected {
                    world_chunks_x,
                    world_chunks_y,
                    seed,
                    ..
                }) && world_chunks_x == x && world_chunks_y == y && seed == s
            },
        },
{
}

/// A viewer keeps what an event does not tell: only a greeting sets the controls, only chunks
/// change the world, and the camera is centered on the first greeting alone.
pub proof fn lemma_events_change_what_they_tell(before: Mirror, event: UserEvent, after: Mirror)
    requires
        mirrored(before, event, after),
    ensures
        !(event is Chunks) && !(event is ChunksDelta) ==> after.chunks == before.chunks,
        !(event is Network) ==> {
            &&& after.network == before.network
            &&& after.sim_paused == before.sim_paused && after.sim_tick_hz == before.sim_tick_hz
                && after.sim_tick_rate_limited == before.sim_tick_rate_limited
            &&& after.sim_params == before.sim_params && after.world_gen_params
                == before.world_gen_params
            &&& after.centered_once == before.centered_once
        },
        event matches UserEvent::Chunks { tick, chunks } ==> after.chunks == chunks && after.sim_tick == tick
            && update_for(before, event) == Update::World(tick),
        event matches UserEvent::ChunksDelta { tick, .. } ==> after.sim_tick == tick && update_for(
            before,
            event,
        ) == Update::World(tick),
        event matches UserEvent::Network(status) ==> after.network == status,
        event matches UserEvent::Network(NetworkStatus::Connecting(_)) ==> after.sim_tick == before.sim_tick
            && after.sim_paused == before.sim_paused && after.centered_once == before.centered_once
            && update_for(before, event) == Update::Status,
        event matches UserEvent::Network(NetworkStatus::Connected {
            world_chunks_x,
            world_chunks_y,
            paused,
            tick_hz,
            tick_rate_limited,
            tick,
            sim_params,
            world_gen_params,
            ..
        }) ==> {
            &&& after.sim_paused == paused && after.sim_tick_hz == tick_hz
                && after.sim_tick_rate_limited == tick_rate_limited && after.sim_tick == tick
            &&& after.sim_params == sim_params && after.world_gen_params == world_gen_params
            &&& after.centered_once
            &&& before.centered_once ==> update_for(before, event) == Update::Status
            &&& !before.centered_once ==> update_for(before, event) == Update::Center(
                world_chunks_x,
                world_chunks_y,
            )
        },
        event is Shutdown ==> after == before && update_for(before, event) == Update::Exit,
{
}

/// A chunk of an update goes to the place of its coordinates in a world whose width is known.
pub proof fn lemma_updates_go_to_their_place(chunks: Seq<WireChunk>, width: u32, x: i32, y: i32)
    requires
        0 <= x < width,
        0 <= y,
    ensures
        delta_slot(chunks, Some(width), (ChunkCoord { x, y })) == (if y * width + x < chunks.len() {
            Some(y * width + x)
        } else {
            None
        }),
{
}

} // verus!
