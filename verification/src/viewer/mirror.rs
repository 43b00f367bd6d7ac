//! The viewer's mirror of the server: its status, its controls and its world.
use vstd::prelude::*;
use crate::protocol::{ChunkCoord, ServerMessage, SimParams, WireChunk, WorldGenParams};
use crate::viewer::gpu::first_chunk_at;

verus! {

/// Where the connection to the server stands.
#[derive(Debug)]
pub enum NetworkStatus {
    /// Trying to connect; after a failure, with its reason.
    Connecting(Option<String>),
    Connected {
        world_chunks_x: u32,
        world_chunks_y: u32,
        paused: bool,
        tick_hz: u32,
        tick_rate_limited: bool,
        tick: u64,
        seed: u64,
        sim_params: SimParams,
        world_gen_params: WorldGenParams,
    },
}

/// What reaches the viewer from outside its window.
#[derive(Debug)]
pub enum UserEvent {
    Network(NetworkStatus),
    /// The whole world: it replaces the local chunks.
    Chunks { tick: u64, chunks: Vec<WireChunk> },
    /// Some chunks: each takes the place of the local one with its coordinates.
    ChunksDelta { tick: u64, chunks: Vec<WireChunk> },
    Shutdown,
}

/// What the viewer knows of the server.
#[derive(Debug)]
pub struct Mirror {
    pub network: NetworkStatus,
    pub chunks: Vec<WireChunk>,
    pub sim_paused: bool,
    pub sim_tick_hz: u32,
    pub sim_tick_rate_limited: bool,
    pub sim_tick: u64,
    pub sim_params: SimParams,
    pub world_gen_params: WorldGenParams,
    /// Whether the camera has been centered on a world.
    pub centered_once: bool,
}

/// What has to follow a change of the mirror.
#[derive(Clone, Copy, Debug, PartialEq, Eq, Structural)]
pub enum Update {
    /// The viewer ends.
    Exit,
    /// A redraw.
    Status,
    /// The camera is centered on a world of so many chunks, then a redraw.
    Center(u32, u32),
    /// The world of a tick is handed to the GPU, then a redraw.
    World(u64),
}

/// Where a chunk of a delta goes: by its position in a world of known width, or to
/// the first chunk with its coordinates.
pub open spec fn delta_slot(chunks: Seq<WireChunk>, width: Option<u32>, coord: ChunkCoord) -> Option<
    int,
> {
    match width {
        Some(w) => {
            let i = coord.y * w + coord.x;
            if coord.x >= 0 && coord.y >= 0 && i < chunks.len() {
                Some(i)
            } else {
                None
            }
        },
        None => first_chunk_at(chunks, coord.x as int, coord.y as int, 0),
    }
}

/// The chunks after the first `n` chunks of a delta have been laid over them.
pub open spec fn overlaid(
    chunks: Seq<WireChunk>,
    width: Option<u32>,
    delta: Seq<WireChunk>,
    n: nat,
) -> Seq<WireChunk>
    decreases n,
{
    if n == 0 {
        chunks
    } else {
        let before = overlaid(chunks, width, delta, (n - 1) as nat);
        match delta_slot(before, width, delta[n - 1].coord) {
            Some(i) => before.update(i, delta[n - 1]),
            None => before,
        }
    }
}

/// The width of the world, as far as the server has told it.
pub open spec fn known_width(network: NetworkStatus) -> Option<u32> {
    match network {
        NetworkStatus::Connected { world_chunks_x, .. } => Some(world_chunks_x),
        NetworkStatus::Connecting(_) => None,
    }
}

/// The mirror after an event.
pub open spec fn mirrored(before: Mirror, event: UserEvent, after: Mirror) -> bool {
    match event {
        UserEvent::Shutdown => after == before,
        UserEvent::Network(status) => match status {
            NetworkStatus::Connected {
                paused,
                tick_hz,
                tick_rate_limited,
                tick,
                sim_params,
                world_gen_params,
                ..
            } => after == (Mirror {
                network: status,
                chunks: before.chunks,
                sim_paused: paused,
                sim_tick_hz: tick_hz,
                sim_tick_rate_limited: tick_rate_limited,
                sim_tick: tick,
                sim_params,
                world_gen_params,
                centered_once: true,
            }),
            NetworkStatus::Connecting(_) => after == (Mirror { network: status, ..before }),
        },
        UserEvent::Chunks { tick, chunks } => after == (Mirror { chunks, sim_tick: tick, ..before }),
        UserEvent::ChunksDelta { tick, chunks } => {
            &&& after == (Mirror { chunks: after.chunks, sim_tick: tick, ..before })
            &&& after.chunks@ == overlaid(
                before.chunks@,
                known_width(before.network),
                chunks@,
                chunks@.len(),
            )
        },
    }
}

/// What follows an event.
pub open spec fn update_for(before: Mirror, event: UserEvent) -> Update {
    match event {
        UserEvent::Shutdown => Update::Exit,
        UserEvent::Network(NetworkStatus::Connected { world_chunks_x, world_chunks_y, .. }) => {
            if before.centered_once {
                Update::Status
            } else {
                Update::Center(world_chunks_x, world_chunks_y)
            }
        },
        UserEvent::Network(NetworkStatus::Connecting(_)) => Update::Status,
        UserEvent::Chunks { tick, .. } => Update::World(tick),
        UserEvent::ChunksDelta { tick, .. } => Update::World(tick),
    }
}

fn position_of(chunks: &Vec<WireChunk>, coord: ChunkCoord) -> (found: Option<usize>)
    ensures
        match found {
            Some(i) => i < chunks.len() && first_chunk_at(
                chunks@,
                coord.x as int,
                coord.y as int,
                0,
            ) == Some(i as int),
            None => first_chunk_at(chunks@, coord.x as int, coord.y as int, 0) is None,
        },
{
    let mut i: usize = 0;
    while i < chunks.len()
        invariant
            i <= chunks.len(),
            first_chunk_at(chunks@, coord.x as int, coord.y as int, 0) == first_chunk_at(
                chunks@,
                coord.x as int,
                coord.y as int,
                i as int,
            ),
        decreases chunks.len() - i,
    {
        if chunks[i].coord.x == coord.x && chunks[i].coord.y == coord.y {
            return Some(i);
        }
        i = i + 1;
    }
    None
}

fn slot_for(chunks: &Vec<WireChunk>, width: Option<u32>, coord: ChunkCoord) -> (slot: Option<usize>)
    ensures
        match slot {
            Some(i) => i < chunks.len() && delta_slot(chunks@, width, coord) == Some(i as int),
            None => delta_slot(chunks@, width, coord) is None,
        },
{
    match width {
        Some(w) => {
            if coord.x < 0 || coord.y < 0 {
                return None;
            }
            assert(0 <= coord.y * w <= 0x7FFF_FFFF * 0xFFFF_FFFF) by (nonlinear_arith)
                requires
                    0 <= coord.y <= 0x7FFF_FFFF,
                    0 <= w <= 0xFFFF_FFFF,
            ;
            let i: u64 = coord.y as u64 * w as u64 + coord.x as u64;
            if i < chunks.len() as u64 {
                Some(i as usize)
            } else {
                None
            }
        },
        None => position_of(chunks, coord),
    }
}

fn overlay(chunks: &mut Vec<WireChunk>, width: Option<u32>, delta: Vec<WireChunk>)
    ensures
        final(chunks)@ == overlaid(old(chunks)@, width, delta@, delta@.len()),
{
    let mut delta = delta;
    let ghost all = delta@;
    let ghost start = chunks@;
    let mut n: usize = 0;
    while n < delta.len()
        invariant
            n <= delta.len(),
            delta.len() == all.len(),
            forall|k: int| n <= k < all.len() ==> delta@[k] == all[k],
            chunks@ == overlaid(start, width, all, n as nat),
        decreases delta.len() - n,
    {
        match slot_for(chunks, width, delta[n].coord) {
            Some(i) => {
                core::mem::swap(&mut chunks[i], &mut delta[n]);
            },
            None => {},
        }
        n = n + 1;
    }
}

impl Mirror {
    /// Nothing known yet.
    pub fn new() -> (mirror: Self)
        ensures
            mirror.network == NetworkStatus::Connecting(None),
            mirror.chunks@.len() == 0,
            !mirror.sim_paused,
            mirror.sim_tick_hz == 10,
            !mirror.sim_tick_rate_limited,
            mirror.sim_tick == 0,
            mirror.sim_params == crate::protocol::default_sim_params(),
            mirror.world_gen_params == crate::protocol::default_world_gen(),
            !mirror.centered_once,
    {
        Mirror {
            network: NetworkStatus::Connecting(None),
            chunks: Vec::new(),
            sim_paused: false,
            sim_tick_hz: 10,
            sim_tick_rate_limited: false,
            sim_tick: 0,
            sim_params: SimParams::default(),
            world_gen_params: WorldGenParams::default(),
            centered_once: false,
        }
    }

    /// Take an event in.
    pub fn apply(&mut self, event: UserEvent) -> (update: Update)
        ensures
            mirrored(*old(self), event, *final(self)),
            update == update_for(*old(self), event),
    {
        match event {
            UserEvent::Shutdown => Update::Exit,
            UserEvent::Network(status) => {
                let mut update = Update::Status;
                if let NetworkStatus::Connected {
                    world_chunks_x,
                    world_chunks_y,
                    paused,
                    tick_hz,
                    tick_rate_limited,
                    tick,
                    sim_params,
                    world_gen_params,
                    ..
                } = &status {
                    if !self.centered_once {
                        update = Update::Center(*world_chunks_x, *world_chunks_y);
                        self.centered_once = true;
                    }
                    self.sim_paused = *paused;
                    self.sim_tick_hz = *tick_hz;
                    self.sim_tick_rate_limited = *tick_rate_limited;
                    self.sim_tick = *tick;
                    self.sim_params = *sim_params;
                    self.world_gen_params = *world_gen_params;
                }
                self.network = status;
                update
            },
            UserEvent::Chunks { tick, chunks } => {
                self.chunks = chunks;
                self.sim_tick = tick;
                Update::World(tick)
            },
            UserEvent::ChunksDelta { tick, chunks } => {
                let width = match &self.network {
                    NetworkStatus::Connected { world_chunks_x, .. } => Some(*world_chunks_x),
                    NetworkStatus::Connecting(_) => None,
                };
                overlay(&mut self.chunks, width, chunks);
                self.sim_tick = tick;
                Update::World(tick)
            },
        }
    }

    /// Forget the connection, as when the viewer goes to the background.
    pub fn disconnect(&mut self)
        ensures
            *final(self) == (Mirror { network: NetworkStatus::Connecting(None), ..*old(self) }),
    {
        self.network = NetworkStatus::Connecting(None);
    }
}

/// The status that a greeting of the server tells.
pub open spec fn status_of(msg: ServerMessage) -> Option<NetworkStatus> {
    match msg {
        ServerMessage::Welcome {
            world_chunks_x,
            world_chunks_y,
            paused,
            tick_hz,
            tick_rate_limited,
            tick,
            seed,
            sim_params,
            world_gen_params,
        } => Some(
            NetworkStatus::Connected {
                world_chunks_x,
                world_chunks_y,
                paused,
                tick_hz,
                tick_rate_limited,
                tick,
                seed,
                sim_params,
                world_gen_params,
            },
        ),
        ServerMessage::ChunkBatch { .. } => None,
        ServerMessage::TickUpdate { .. } => None,
    }
}

/// The first chunk at some coordinates has them, and its index depends on the
/// coordinates of the chunks alone.
proof fn lemma_first_chunk(a: Seq<WireChunk>, b: Seq<WireChunk>, cx: int, cy: int, from: int)
    requires
        a.len() == b.len(),
        forall|k: int| 0 <= k < a.len() ==> (#[trigger] a[k]).coord == b[k].coord,
        0 <= from,
    ensures
        first_chunk_at(a, cx, cy, from) == first_chunk_at(b, cx, cy, from),
        first_chunk_at(a, cx, cy, from) matches Some(k) ==> 0 <= k < a.len() && a[k].coord.x == cx
            && a[k].coord.y == cy,
    decreases a.len() - from,
{
    if from < a.len() {
        lemma_first_chunk(a, b, cx, cy, from + 1);
    }
}

/// A chunk of a delta goes to a chunk that exists. In a world of unknown width the
/// two have the same coordinates.
proof fn lemma_delta_slot(chunks: Seq<WireChunk>, width: Option<u32>, coord: ChunkCoord)
    ensures
        delta_slot(chunks, width, coord) matches Some(i) ==> 0 <= i < chunks.len() && (width is None
            ==> chunks[i].coord == coord),
{
    match width {
        Some(w) => {
            if coord.y >= 0 {
                assert(0 <= coord.y * w) by (nonlinear_arith)
                    requires
                        0 <= coord.y,
                        0 <= w,
                ;
            }
        },
        None => {
            lemma_first_chunk(chunks, chunks, coord.x as int, coord.y as int, 0);
        },
    }
}

/// A delta does not change the number of chunks, and a chunk that none of the
/// delta's chunks goes to stays as it was.
pub proof fn lemma_delta_is_local(
    chunks: Seq<WireChunk>,
    width: Option<u32>,
    delta: Seq<WireChunk>,
    i: int,
)
    requires
        0 <= i < chunks.len(),
        forall|k: int|
            0 <= k < delta.len() ==> delta_slot(chunks, width, (#[trigger] delta[k]).coord) != Some(i),
    ensures
        overlaid(chunks, width, delta, delta.len()).len() == chunks.len(),
        overlaid(chunks, width, delta, delta.len())[i] == chunks[i],
{
    lemma_overlaid(chunks, width, delta, delta.len(), i);
}

proof fn lemma_overlaid(
    chunks: Seq<WireChunk>,
    width: Option<u32>,
    delta: Seq<WireChunk>,
    n: nat,
    i: int,
)
    requires
        n <= delta.len(),
        0 <= i < chunks.len(),
        forall|k: int|
            0 <= k < n ==> delta_slot(chunks, width, (#[trigger] delta[k]).coord) != Some(i),
    ensures
        overlaid(chunks, width, delta, n).len() == chunks.len(),
        overlaid(chunks, width, delta, n)[i] == chunks[i],
        width is None ==> forall|k: int|
            0 <= k < chunks.len() ==> (#[trigger] overlaid(chunks, width, delta, n)[k]).coord
                == chunks[k].coord,
    decreases n,
{
    if n > 0 {
        lemma_overlaid(chunks, width, delta, (n - 1) as nat, i);
        let before = overlaid(chunks, width, delta, (n - 1) as nat);
        let coord = delta[n - 1].coord;
        lemma_delta_slot(before, width, coord);
        if width is None {
            lemma_first_chunk(before, chunks, coord.x as int, coord.y as int, 0);
        }
        assert(delta_slot(before, width, coord) == delta_slot(chunks, width, coord));
    }
}

/// A chunk of a delta that no later one covers is found in its place afterwards.
pub proof fn lemma_delta_lands(
    chunks: Seq<WireChunk>,
    width: Option<u32>,
    delta: Seq<WireChunk>,
    k: int,
    i: int,
)
    requires
        0 <= k < delta.len(),
        delta_slot(chunks, width, delta[k].coord) == Some(i),
        forall|j: int|
            k < j < delta.len() ==> delta_slot(chunks, width, (#[trigger] delta[j]).coord) != Some(i),
    ensures
        overlaid(chunks, width, delta, delta.len())[i] == delta[k],
{
    lemma_delta_slot(chunks, width, delta[k].coord);
    lemma_lands(chunks, width, delta, k, i, delta.len());
}

proof fn lemma_lands(
    chunks: Seq<WireChunk>,
    width: Option<u32>,
    delta: Seq<WireChunk>,
    k: int,
    i: int,
    n: nat,
)
    requires
        0 <= k < delta.len(),
        n <= delta.len(),
        0 <= i < chunks.len(),
        delta_slot(chunks, width, delta[k].coord) == Some(i),
        forall|j: int|
            k < j < delta.len() ==> delta_slot(chunks, width, (#[trigger] delta[j]).coord) != Some(i),
    ensures
        overlaid(chunks, width, delta, n).len() == chunks.len(),
        n > k ==> overlaid(chunks, width, delta, n)[i] == delta[k],
        width is None ==> forall|j: int|
            0 <= j < chunks.len() ==> (#[trigger] overlaid(chunks, width, delta, n)[j]).coord
                == chunks[j].coord,
    decreases n,
{
    if n > 0 {
        lemma_lands(chunks, width, delta, k, i, (n - 1) as nat);
        let before = overlaid(chunks, width, delta, (n - 1) as nat);
        let coord = delta[n - 1].coord;
        lemma_delta_slot(before, width, coord);
        if width is None {
            lemma_first_chunk(before, chunks, coord.x as int, coord.y as int, 0);
        }
        assert(delta_slot(before, width, delta[n - 1].coord) == delta_slot(
            chunks,
            width,
            delta[n - 1].coord,
        ));
    }
}

} // verus!
