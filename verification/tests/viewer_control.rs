//! The viewer's mirror, session, input and gestures.
use simulife::protocol::{
    ChunkCoord, ClientMessage, ServerMessage, SimParams, WireCell, WireChunk, WireOccupant,
    WorldGenParams,
};
use simulife::viewer::input::{
    dialog_outcome, next_frame, set_layer, set_tint, tint_mode, ContextMenu, Controls,
    DialogClicks, InputAction, NextFrame, Tint, WindowInput, LAYER_CLAN, LAYER_ENERGY, LAYER_FG,
    LAYER_MUTATION_RATE, LAYER_ORGANIC,
};
use simulife::viewer::mirror::{Mirror, NetworkStatus, Update, UserEvent};
use simulife::viewer::rate::{TickRate, WINDOW_NANOS};
use simulife::viewer::session::{
    on_message, reconnect_reason, request_for, SessionEnd, SessionError, SessionPhase,
};
use simulife::viewer::status::{connection_status, loaded_line, pause_label, tick_line};
use simulife::viewer::touch::{Gesture, TouchChange, Touches, LONG_PRESS_NANOS};

fn chunk(x: i32, y: i32, organic: u16) -> WireChunk {
    WireChunk {
        coord: ChunkCoord { x, y },
        cells: vec![WireCell {
            organic,
            soil_energy: 0,
            sunlit: false,
            lineage_mutation_rate: 0,
            occupant: WireOccupant::Empty,
        }],
    }
}

fn welcome(width: u32, height: u32, paused: bool) -> ServerMessage {
    ServerMessage::Welcome {
        world_chunks_x: width,
        world_chunks_y: height,
        paused,
        tick_hz: 25,
        tick_rate_limited: true,
        tick: 9,
        seed: 77,
        sim_params: SimParams::default(),
        world_gen_params: WorldGenParams::default(),
    }
}

fn event(msg: ServerMessage) -> UserEvent {
    match on_message(SessionPhase::Live, msg) {
        Ok((_, event)) => event,
        Err(e) => panic!("refused: {e:?}"),
    }
}

fn organics(mirror: &Mirror) -> Vec<u16> {
    mirror.chunks.iter().map(|c| c.cells[0].organic).collect()
}

#[test]
fn greetings_set_the_controls_and_center_once() {
    let mut mirror = Mirror::new();
    assert_eq!(mirror.sim_tick_hz, 10);
    assert_eq!(mirror.apply(event(welcome(3, 2, true))), Update::Center(3, 2));
    assert!(mirror.sim_paused);
    assert_eq!(mirror.sim_tick_hz, 25);
    assert!(mirror.sim_tick_rate_limited);
    assert_eq!(mirror.sim_tick, 9);
    assert_eq!(mirror.apply(event(welcome(5, 5, false))), Update::Status);
    assert!(!mirror.sim_paused);
    match &mirror.network {
        NetworkStatus::Connected { world_chunks_x, seed, .. } => {
            assert_eq!(*world_chunks_x, 5);
            assert_eq!(*seed, 77);
        }
        other => panic!("not connected: {other:?}"),
    }
    mirror.disconnect();
    assert!(matches!(mirror.network, NetworkStatus::Connecting(None)));
    assert!(mirror.centered_once);
    assert_eq!(mirror.apply(UserEvent::Shutdown), Update::Exit);
}

#[test]
fn the_status_tells_how_the_connection_stands() {
    let mut mirror = Mirror::new();
    let lines = |mirror: &Mirror| connection_status(&mirror.network, "127.0.0.1:4433");
    assert_eq!(lines(&mirror), ["Connecting to 127.0.0.1:4433..."]);
    let lost = NetworkStatus::Connecting(Some("timed out".to_string()));
    mirror.apply(UserEvent::Network(lost));
    assert_eq!(
        lines(&mirror),
        ["Reconnecting...", "Server: 127.0.0.1:4433", "Last error: timed out"]
    );
    mirror.apply(event(welcome(36, 24, true)));
    assert_eq!(
        lines(&mirror),
        [
            "Connected",
            "Server: 127.0.0.1:4433",
            "World: 36 × 24 chunks",
            "Seed: 0x000000000000004d"
        ]
    );
    assert_eq!(pause_label(mirror.sim_paused), "Resume");
    assert_eq!(pause_label(false), "Pause");
    assert_eq!(loaded_line(864), "Loaded chunks: 864");
    assert_eq!(tick_line(mirror.sim_tick), "Tick: 9");
}

#[test]
fn batches_replace_the_world() {
    let mut mirror = Mirror::new();
    let batch = UserEvent::Chunks { tick: 4, chunks: vec![chunk(0, 0, 1), chunk(1, 0, 2)] };
    assert_eq!(mirror.apply(batch), Update::World(4));
    assert_eq!(organics(&mirror), [1, 2]);
    assert_eq!(mirror.sim_tick, 4);
    mirror.apply(UserEvent::Chunks { tick: 5, chunks: vec![chunk(0, 0, 3)] });
    assert_eq!(organics(&mirror), [3]);
}

#[test]
fn deltas_overlay_by_position_in_a_known_world() {
    let mut mirror = Mirror::new();
    mirror.apply(event(welcome(2, 2, false)));
    let all = vec![chunk(0, 0, 1), chunk(1, 0, 2), chunk(0, 1, 3), chunk(1, 1, 4)];
    mirror.apply(UserEvent::Chunks { tick: 1, chunks: all });
    let delta = vec![chunk(1, 1, 40), chunk(1, 0, 20), chunk(1, 0, 21), chunk(-1, 0, 99), chunk(0, 7, 98)];
    assert_eq!(mirror.apply(UserEvent::ChunksDelta { tick: 2, chunks: delta }), Update::World(2));
    assert_eq!(organics(&mirror), [1, 21, 3, 40]);
}

#[test]
fn deltas_overlay_by_coordinates_in_an_unknown_world() {
    let mut mirror = Mirror::new();
    mirror.apply(UserEvent::Chunks { tick: 1, chunks: vec![chunk(5, 5, 1), chunk(-2, 3, 2)] });
    let delta = vec![chunk(-2, 3, 20), chunk(0, 0, 99)];
    mirror.apply(UserEvent::ChunksDelta { tick: 2, chunks: delta });
    assert_eq!(organics(&mirror), [1, 20]);
}

#[test]
fn sessions_greet_then_load_then_live() {
    assert!(matches!(request_for(SessionPhase::Greeting), Some(ClientMessage::Hello)));
    assert!(matches!(request_for(SessionPhase::Loading), Some(ClientMessage::Subscribe)));
    assert!(request_for(SessionPhase::Live).is_none());
    let (phase, _) = on_message(SessionPhase::Greeting, welcome(1, 1, false)).expect("greeting");
    assert_eq!(phase, SessionPhase::Loading);
    let batch = ServerMessage::ChunkBatch { tick: 1, chunks: vec![] };
    let (phase, event) = on_message(phase, batch).expect("batch");
    assert_eq!(phase, SessionPhase::Live);
    assert!(matches!(event, UserEvent::Chunks { tick: 1, .. }));
    let (phase, _) = on_message(phase, welcome(1, 1, true)).expect("push");
    assert_eq!(phase, SessionPhase::Live);
    let update = ServerMessage::TickUpdate { tick: 2, chunks: vec![] };
    let (phase, event) = on_message(phase, update).expect("update");
    assert_eq!(phase, SessionPhase::Live);
    assert!(matches!(event, UserEvent::ChunksDelta { tick: 2, .. }));
}

#[test]
fn sessions_refuse_answers_out_of_order() {
    let batch = ServerMessage::ChunkBatch { tick: 1, chunks: vec![] };
    match on_message(SessionPhase::Greeting, batch) {
        Err(e) => assert_eq!(e, SessionError::UnexpectedFirstMessage),
        Ok(_) => panic!("a batch is no greeting"),
    }
    match on_message(SessionPhase::Loading, welcome(1, 1, false)) {
        Err(e) => assert_eq!(e, SessionError::ExpectedChunkBatch),
        Ok(_) => panic!("a greeting is no batch"),
    }
    let update = ServerMessage::TickUpdate { tick: 1, chunks: vec![] };
    match on_message(SessionPhase::Loading, update) {
        Err(e) => assert_eq!(e, SessionError::ExpectedChunkBatch),
        Ok(_) => panic!("an update is no batch"),
    }
}

#[test]
fn sessions_end_with_a_reason_to_show() {
    assert_eq!(reconnect_reason(SessionEnd::Shutdown), None);
    assert_eq!(
        reconnect_reason(SessionEnd::ServerClosed).as_deref(),
        Some("server closed connection")
    );
    assert_eq!(
        reconnect_reason(SessionEnd::Failed("timed out".to_string())).as_deref(),
        Some("timed out")
    );
}

#[test]
fn tick_rate_is_taken_over_the_last_second_and_refreshed_once_per_second() {
    let mut rate = TickRate::new();
    assert_eq!(rate.record(0, 100), None);
    assert_eq!(rate.record(WINDOW_NANOS / 2, 105), Some((5, WINDOW_NANOS / 2)));
    assert_eq!(rate.record(WINDOW_NANOS, 110), None);
    // The first sample has left the window by now.
    assert_eq!(
        rate.record(WINDOW_NANOS / 2 * 3, 120),
        Some((15, WINDOW_NANOS))
    );
    assert_eq!(rate.samples.len(), 3);
    // No progress, no rate.
    assert_eq!(rate.record(WINDOW_NANOS * 9, 120), None);
    assert_eq!(rate.last_update, Some(WINDOW_NANOS / 2 * 3));
}

#[test]
fn layer_keys_toggle_layers_and_tints_exclude_each_other() {
    let mut c = Controls::new();
    assert_eq!(c.layer_flags, LAYER_ORGANIC | LAYER_FG | LAYER_ENERGY);
    c.handle(WindowInput::Typed('1'), false);
    assert_eq!(c.layer_flags, LAYER_FG | LAYER_ENERGY);
    c.handle(WindowInput::Typed('1'), false);
    c.handle(WindowInput::Typed('2'), false);
    assert_eq!(c.layer_flags, LAYER_ORGANIC | LAYER_FG);
    c.handle(WindowInput::Typed('3'), false);
    assert_eq!(c.layer_flags, LAYER_ORGANIC);
    c.handle(WindowInput::Typed('4'), false);
    assert_eq!(c.layer_flags, LAYER_ORGANIC | LAYER_CLAN);
    c.handle(WindowInput::Typed('5'), false);
    assert_eq!(c.layer_flags, LAYER_ORGANIC | LAYER_MUTATION_RATE);
    c.handle(WindowInput::Typed('5'), false);
    assert_eq!(c.layer_flags, LAYER_ORGANIC);
    assert!(matches!(c.handle(WindowInput::Typed('6'), false), InputAction::Nothing));
    assert_eq!(c.layer_flags, LAYER_ORGANIC);
}

#[test]
fn panel_tints_and_layers_set_their_bits() {
    let flags = LAYER_FG | LAYER_CLAN;
    assert_eq!(tint_mode(flags), Tint::Clan);
    assert_eq!(set_tint(flags, Tint::MutationRate), LAYER_FG | LAYER_MUTATION_RATE);
    assert_eq!(tint_mode(LAYER_MUTATION_RATE | LAYER_CLAN), Tint::MutationRate);
    assert_eq!(set_tint(LAYER_MUTATION_RATE | LAYER_CLAN, Tint::Default), 0);
    assert_eq!(tint_mode(LAYER_FG), Tint::Default);
    assert_eq!(set_layer(flags, LAYER_ENERGY, true), flags | LAYER_ENERGY);
    assert_eq!(set_layer(flags, LAYER_FG, false), LAYER_CLAN);
    assert_eq!(set_layer(flags, LAYER_FG, true), flags);
}

#[test]
fn keys_send_requests() {
    let mut c = Controls::new();
    assert!(matches!(
        c.handle(WindowInput::Space, false),
        InputAction::Send(ClientMessage::SetPaused(true))
    ));
    assert!(matches!(
        c.handle(WindowInput::Space, true),
        InputAction::Send(ClientMessage::SetPaused(false))
    ));
    assert!(matches!(
        c.handle(WindowInput::Typed('.'), false),
        InputAction::Send(ClientMessage::Step)
    ));
    assert!(matches!(c.handle(WindowInput::Typed('h'), false), InputAction::Redraw));
    assert!(!c.ui_visible);
    c.handle(WindowInput::Typed('H'), false);
    assert!(c.ui_visible);
}

#[test]
fn the_mouse_pans_and_opens_the_menu() {
    let mut c = Controls::new();
    let right = WindowInput::RightPressed { world_x: 3, world_y: -4 };
    // Without a known cursor there is nothing to open a menu at.
    assert!(matches!(c.handle(right, false), InputAction::Nothing));
    c.handle(WindowInput::LeftPressed, false);
    assert!(c.dragging);
    assert!(matches!(c.handle(WindowInput::CursorMoved, false), InputAction::Nothing));
    assert!(matches!(c.handle(WindowInput::CursorMoved, false), InputAction::Pan));
    c.handle(WindowInput::LeftReleased, false);
    assert!(matches!(c.handle(WindowInput::CursorMoved, false), InputAction::Nothing));
    assert!(matches!(c.handle(right, false), InputAction::Redraw));
    assert_eq!(c.context_menu, Some(ContextMenu { world_x: 3, world_y: -4 }));
    // The left button closes the menu and does not drag.
    c.handle(WindowInput::LeftPressed, false);
    assert_eq!(c.context_menu, None);
    assert!(!c.dragging);
    c.handle(right, false);
    c.handle(WindowInput::Escape, false);
    assert_eq!(c.context_menu, None);
    assert!(matches!(c.handle(WindowInput::Escape, false), InputAction::Nothing));
    c.handle(right, false);
    assert!(matches!(
        c.spawn_from_menu(),
        Some(ClientMessage::SpawnSprout { x: 3, y: -4, .. })
    ));
    assert!(c.spawn_from_menu().is_none());
}

#[test]
fn other_window_events_have_their_actions() {
    let mut c = Controls::new();
    assert!(matches!(c.handle(WindowInput::CloseRequested, false), InputAction::Exit));
    assert!(matches!(c.handle(WindowInput::Resized, false), InputAction::Resize));
    assert!(matches!(c.handle(WindowInput::Wheel, false), InputAction::Zoom));
    assert!(matches!(c.handle(WindowInput::Touch, false), InputAction::Gesture));
    assert!(matches!(c.handle(WindowInput::RedrawRequested, false), InputAction::Render));
    assert!(matches!(c.handle(WindowInput::Other, false), InputAction::Nothing));
    assert_eq!(next_frame(0, 0), NextFrame::Now);
    assert_eq!(next_frame(0, 1), NextFrame::Later);
    assert_eq!(next_frame(u64::MAX, 999_999_999), NextFrame::OnEvent);
}

#[test]
fn the_dialog_sends_only_seeds_that_can_be_read() {
    let none = DialogClicks { randomize: false, submit: false, cancel: false };
    let submit = DialogClicks { submit: true, ..none };
    let outcome = dialog_outcome("0x2a", submit);
    assert_eq!(outcome.regenerate, Some(42));
    assert!(outcome.close);
    let outcome = dialog_outcome("seed", submit);
    assert_eq!(outcome.regenerate, None);
    assert!(!outcome.close);
    let outcome = dialog_outcome("1", DialogClicks { randomize: true, ..submit });
    assert!(outcome.new_seed);
    assert_eq!(outcome.regenerate, None);
    assert!(!outcome.close);
    assert!(dialog_outcome("1", DialogClicks { cancel: true, ..none }).close);
    assert!(!dialog_outcome("1", none).close);
}

#[test]
fn one_finger_pans_and_two_pinch() {
    let mut t = Touches::new();
    let down = TouchChange::Started { over_ui: false };
    assert_eq!(t.handle(1, down, 0), Gesture::Nothing);
    assert!(t.contains(1));
    assert_eq!(t.handle(1, TouchChange::Moved, 1), Gesture::Pan);
    assert_eq!(t.handle(9, TouchChange::Moved, 1), Gesture::Nothing);
    t.handle(2, down, 2);
    assert_eq!(t.handle(2, TouchChange::Moved, 3), Gesture::Pinch(1, 2));
    // Neither finger of a pinch makes a long press.
    let up = TouchChange::Ended { still: true };
    assert_eq!(t.handle(2, up, LONG_PRESS_NANOS * 9), Gesture::Nothing);
    assert_eq!(t.handle(1, up, LONG_PRESS_NANOS * 9), Gesture::Nothing);
    assert!(!t.contains(1));
}

#[test]
fn touches_on_panels_do_not_move_the_world() {
    let mut t = Touches::new();
    t.handle(1, TouchChange::Started { over_ui: true }, 0);
    assert_eq!(t.handle(1, TouchChange::Moved, 1), Gesture::Nothing);
    t.handle(2, TouchChange::Started { over_ui: false }, 0);
    assert_eq!(t.handle(2, TouchChange::Moved, 1), Gesture::Nothing);
    t.handle(2, TouchChange::Ended { still: true }, 2);
    assert_eq!(
        t.handle(1, TouchChange::Ended { still: true }, LONG_PRESS_NANOS),
        Gesture::Nothing
    );
}

#[test]
fn a_long_press_is_alone_long_and_still() {
    let down = TouchChange::Started { over_ui: false };
    let mut t = Touches::new();
    t.handle(1, down, 10);
    assert_eq!(
        t.handle(1, TouchChange::Ended { still: true }, 10 + LONG_PRESS_NANOS),
        Gesture::LongPress
    );
    t.handle(1, down, 10);
    assert_eq!(
        t.handle(1, TouchChange::Ended { still: true }, 9 + LONG_PRESS_NANOS),
        Gesture::Nothing
    );
    t.handle(1, down, 10);
    assert_eq!(
        t.handle(1, TouchChange::Ended { still: false }, 10 + LONG_PRESS_NANOS),
        Gesture::Nothing
    );
    t.handle(1, down, 10);
    t.handle(2, down, 10);
    assert_eq!(
        t.handle(1, TouchChange::Ended { still: true }, 10 + LONG_PRESS_NANOS),
        Gesture::Nothing
    );
}
