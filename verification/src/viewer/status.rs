//! The lines that tell how the viewer and the server stand.
use vstd::prelude::*;
use crate::text::{decimal, decimal_text, seed_text, shown_seed};
use crate::viewer::details::{line, number_line, numbered, put};
use crate::viewer::history::texts;
use crate::viewer::mirror::NetworkStatus;

verus! {

/// The lines that describe the connection to a server.
pub open spec fn connection_lines(network: NetworkStatus, server: Seq<char>) -> Seq<Seq<char>> {
    match network {
        NetworkStatus::Connecting(None) => seq!["Connecting to "@ + server + "..."@],
        NetworkStatus::Connecting(Some(reason)) => seq![
            "Reconnecting..."@,
            "Server: "@ + server,
            "Last error: "@ + reason@,
        ],
        NetworkStatus::Connected { world_chunks_x, world_chunks_y, seed, .. } => seq![
            "Connected"@,
            "Server: "@ + server,
            "World: "@ + decimal(world_chunks_x as nat) + " × "@ + decimal(world_chunks_y as nat)
                + " chunks"@,
            "Seed: "@ + shown_seed(seed),
        ],
    }
}

/// The lines that describe the connection to a server; the first one tells the state.
pub fn connection_status(network: &NetworkStatus, server: &str) -> (lines: Vec<String>)
    ensures
        texts(lines@) == connection_lines(*network, server@),
{
    let mut lines: Vec<String> = Vec::new();
    assert(texts(lines@) =~= Seq::<Seq<char>>::empty());
    match network {
        NetworkStatus::Connecting(None) => {
            let mut text = line("Connecting to ", server);
            text.append("...");
            put(&mut lines, text);
        },
        NetworkStatus::Connecting(Some(reason)) => {
            put(&mut lines, "Reconnecting...".to_owned());
            put(&mut lines, line("Server: ", server));
            put(&mut lines, line("Last error: ", reason.as_str()));
        },
        NetworkStatus::Connected { world_chunks_x, world_chunks_y, seed, .. } => {
            put(&mut lines, "Connected".to_owned());
            put(&mut lines, line("Server: ", server));
            let mut text = numbered("World: ", *world_chunks_x as u64);
            text.append(" × ");
            let height = decimal_text(*world_chunks_y as u64);
            text.append(height.as_str());
            text.append(" chunks");
            put(&mut lines, text);
            let seed = seed_text(*seed);
            put(&mut lines, line("Seed: ", seed.as_str()));
        },
    }
    assert(texts(lines@) =~= connection_lines(*network, server@));
    lines
}

/// The label of the button that toggles the pause.
pub fn pause_label(sim_paused: bool) -> (label: &'static str)
    ensures
        label@ == (if sim_paused {
            "Resume"@
        } else {
            "Pause"@
        }),
{
    if sim_paused {
        "Resume"
    } else {
        "Pause"
    }
}

/// The line that tells how many chunks are there.
pub fn loaded_line(chunk_count: usize) -> (text: String)
    ensures
        text@ == number_line("Loaded chunks: "@, chunk_count as nat),
{
    numbered("Loaded chunks: ", chunk_count as u64)
}

/// The line that tells the tick.
pub fn tick_line(tick: u64) -> (text: String)
    ensures
        text@ == number_line("Tick: "@, tick as nat),
{
    numbered("Tick: ", tick)
}

} // verus!
