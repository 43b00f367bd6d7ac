//! What the viewer does with input: keys, the mouse, the panels.
use vstd::prelude::*;
use crate::protocol::{ClientMessage, Direction};
use crate::text::{parse_seed, seed_of};

verus! {

// ---------------------------------------------------------------------------
// Layers
// ---------------------------------------------------------------------------
/// The soil shows its organic matter.
pub const LAYER_ORGANIC: u32 = 1;

/// Occupants are drawn.
pub const LAYER_FG: u32 = 2;

/// The soil shows its energy.
pub const LAYER_ENERGY: u32 = 4;

/// Occupants are coloured by clan.
pub const LAYER_CLAN: u32 = 8;

/// Occupants are coloured by the mutation rate of their lineage.
pub const LAYER_MUTATION_RATE: u32 = 16;

/// How occupants are coloured.
#[derive(Clone, Copy, Debug, PartialEq, Eq, Structural)]
pub enum Tint {
    Default,
    Clan,
    MutationRate,
}

/// The tint that some layer flags select.
pub open spec fn tint_of(flags: u32) -> Tint {
    if flags & LAYER_MUTATION_RATE != 0 {
        Tint::MutationRate
    } else if flags & LAYER_CLAN != 0 {
        Tint::Clan
    } else {
        Tint::Default
    }
}

/// The tint that some layer flags select.
pub fn tint_mode(flags: u32) -> (tint: Tint)
    ensures
        tint == tint_of(flags),
{
    if flags & LAYER_MUTATION_RATE != 0 {
        Tint::MutationRate
    } else if flags & LAYER_CLAN != 0 {
        Tint::Clan
    } else {
        Tint::Default
    }
}

/// The layer flags with a layer switched on or off.
pub open spec fn layer_set(flags: u32, layer: u32, on: bool) -> u32 {
    if on {
        (flags & !layer) | layer
    } else {
        flags & !layer
    }
}

/// Switch a layer on or off.
pub fn set_layer(flags: u32, layer: u32, on: bool) -> (changed: u32)
    ensures
        changed == layer_set(flags, layer, on),
{
    if on {
        (flags & !layer) | layer
    } else {
        flags & !layer
    }
}

/// The layer flags with another tint.
pub open spec fn tint_set(flags: u32, tint: Tint) -> u32 {
    let bare = flags & !(LAYER_CLAN | LAYER_MUTATION_RATE);
    match tint {
        Tint::Default => bare,
        Tint::Clan => bare | LAYER_CLAN,
        Tint::MutationRate => bare | LAYER_MUTATION_RATE,
    }
}

/// Select a tint.
pub fn set_tint(flags: u32, tint: Tint) -> (changed: u32)
    ensures
        changed == tint_set(flags, tint),
{
    let bare: u32 = flags & !(LAYER_CLAN | LAYER_MUTATION_RATE);
    match tint {
        Tint::Default => bare,
        Tint::Clan => bare | LAYER_CLAN,
        Tint::MutationRate => bare | LAYER_MUTATION_RATE,
    }
}

/// The layer flags after the key of a layer: keys 1 to 3 switch a layer, keys 4 and
/// 5 switch a tint, which replaces the other one.
pub open spec fn layer_key(flags: u32, key: char) -> Option<u32> {
    if key == '1' {
        Some(flags ^ LAYER_ORGANIC)
    } else if key == '2' {
        Some(flags ^ LAYER_ENERGY)
    } else if key == '3' {
        Some(flags ^ LAYER_FG)
    } else if key == '4' {
        if flags & LAYER_CLAN != 0 {
            Some(flags & !LAYER_CLAN)
        } else {
            Some((flags & !LAYER_MUTATION_RATE) | LAYER_CLAN)
        }
    } else if key == '5' {
        if flags & LAYER_MUTATION_RATE != 0 {
            Some(flags & !LAYER_MUTATION_RATE)
        } else {
            Some((flags & !LAYER_CLAN) | LAYER_MUTATION_RATE)
        }
    } else {
        None
    }
}

fn press_layer_key(flags: u32, key: char) -> (changed: Option<u32>)
    ensures
        changed == layer_key(flags, key),
{
    match key {
        '1' => Some(flags ^ LAYER_ORGANIC),
        '2' => Some(flags ^ LAYER_ENERGY),
        '3' => Some(flags ^ LAYER_FG),
        '4' => if flags & LAYER_CLAN != 0 {
            Some(flags & !LAYER_CLAN)
        } else {
            Some((flags & !LAYER_MUTATION_RATE) | LAYER_CLAN)
        },
        '5' => if flags & LAYER_MUTATION_RATE != 0 {
            Some(flags & !LAYER_MUTATION_RATE)
        } else {
            Some((flags & !LAYER_CLAN) | LAYER_MUTATION_RATE)
        },
        _ => None,
    }
}

/// Whether at most one tint is switched on.
pub open spec fn tints_exclusive(flags: u32) -> bool {
    flags & LAYER_CLAN == 0 || flags & LAYER_MUTATION_RATE == 0
}

/// No key switches both tints on, and neither does the panel.
pub proof fn lemma_tints_stay_exclusive(flags: u32, key: char, tint: Tint)
    requires
        tints_exclusive(flags),
    ensures
        layer_key(flags, key) matches Some(f) ==> tints_exclusive(f),
        tints_exclusive(tint_set(flags, tint)),
{
    assert(flags & 8 == 0 || flags & 16 == 0 ==> {
        let clan = (flags & !16u32) | 8u32;
        let rate = (flags & !8u32) | 16u32;
        &&& (flags ^ 1u32) & 8 == flags & 8 && (flags ^ 1u32) & 16 == flags & 16
        &&& (flags ^ 4u32) & 8 == flags & 8 && (flags ^ 4u32) & 16 == flags & 16
        &&& (flags ^ 2u32) & 8 == flags & 8 && (flags ^ 2u32) & 16 == flags & 16
        &&& (flags & !8u32) & 8 == 0
        &&& (flags & !16u32) & 16 == 0
        &&& clan & 16 == 0
        &&& rate & 8 == 0
    }) by (bit_vector);
    assert((flags & !(8u32 | 16u32)) & 8 == 0) by (bit_vector);
    assert(((flags & !(8u32 | 16u32)) | 8u32) & 16 == 0) by (bit_vector);
    assert(((flags & !(8u32 | 16u32)) | 16u32) & 8 == 0) by (bit_vector);
}

/// The panel's tint is the one that is shown afterwards, and it leaves the other
/// layers alone.
pub proof fn lemma_tint_set(flags: u32, tint: Tint)
    ensures
        tint_of(tint_set(flags, tint)) == tint,
        tint_set(flags, tint) & LAYER_ORGANIC == flags & LAYER_ORGANIC,
        tint_set(flags, tint) & LAYER_FG == flags & LAYER_FG,
        tint_set(flags, tint) & LAYER_ENERGY == flags & LAYER_ENERGY,
{
    assert({
        let bare = flags & !(8u32 | 16u32);
        &&& bare & 8 == 0 && bare & 16 == 0
        &&& bare & 1 == flags & 1 && bare & 2 == flags & 2 && bare & 4 == flags & 4
        &&& (bare | 8u32) & 8 != 0 && (bare | 8u32) & 16 == 0
        &&& (bare | 8u32) & 1 == flags & 1 && (bare | 8u32) & 2 == flags & 2 && (bare | 8u32) & 4
            == flags & 4
        &&& (bare | 16u32) & 16 != 0
        &&& (bare | 16u32) & 1 == flags & 1 && (bare | 16u32) & 2 == flags & 2 && (bare | 16u32) & 4
            == flags & 4
    }) by (bit_vector);
}

/// Pressing the key of a layer twice restores the flags, and so does pressing the
/// key of a tint twice when no tint was shown.
pub proof fn lemma_layer_keys_undo(flags: u32, key: char)
    requires
        layer_key(flags, key) is Some,
        key == '4' || key == '5' ==> tint_of(flags) == Tint::Default,
    ensures
        layer_key(layer_key(flags, key)->0, key) == Some(flags),
{
    assert((flags ^ 1u32) ^ 1u32 == flags) by (bit_vector);
    assert((flags ^ 2u32) ^ 2u32 == flags) by (bit_vector);
    assert((flags ^ 4u32) ^ 4u32 == flags) by (bit_vector);
    assert(flags & 8 == 0 && flags & 16 == 0 ==> {
        let clan = (flags & !16u32) | 8u32;
        let rate = (flags & !8u32) | 16u32;
        &&& clan & 8 != 0
        &&& clan & !8u32 == flags
        &&& rate & 16 != 0
        &&& rate & !16u32 == flags
    }) by (bit_vector);
}

// ---------------------------------------------------------------------------
// The window
// ---------------------------------------------------------------------------
/// The cell that an open context menu belongs to.
#[derive(Clone, Copy, Debug, PartialEq, Eq, Structural)]
pub struct ContextMenu {
    pub world_x: i32,
    pub world_y: i32,
}

/// An event of the viewer's window that no panel has consumed.
#[derive(Clone, Copy, Debug, PartialEq, Eq, Structural)]
pub enum WindowInput {
    CloseRequested,
    Resized,
    CursorMoved,
    /// The right button went down over a cell.
    RightPressed { world_x: i32, world_y: i32 },
    LeftPressed,
    LeftReleased,
    Escape,
    Space,
    /// A key that types one character.
    Typed(char),
    Wheel,
    Touch,
    RedrawRequested,
    Other,
}

/// What the window has to do.
#[derive(Debug)]
pub enum InputAction {
    Nothing,
    Exit,
    /// Fit the surface to the new size, then redraw.
    Resize,
    /// Move the camera with the cursor, then redraw.
    Pan,
    /// Zoom the camera, then redraw.
    Zoom,
    /// Hand the touch to the gesture recognizer.
    Gesture,
    Render,
    Redraw,
    Send(ClientMessage),
}

/// What the input handler keeps.
#[derive(Clone, Copy, Debug, PartialEq, Eq, Structural)]
pub struct Controls {
    pub layer_flags: u32,
    /// Whether the panels are drawn.
    pub ui_visible: bool,
    pub dragging: bool,
    /// Whether the position of the cursor is known.
    pub cursor_known: bool,
    pub context_menu: Option<ContextMenu>,
}

/// The request that toggles the pause. The server is authoritative: its next
/// greeting tells the outcome.
pub fn pause_request(sim_paused: bool) -> (msg: ClientMessage)
    ensures
        msg == ClientMessage::SetPaused(!sim_paused),
{
    ClientMessage::SetPaused(!sim_paused)
}

/// The controls after an event, and what the window has to do.
pub open spec fn handled(c: Controls, input: WindowInput, sim_paused: bool) -> (
    Controls,
    InputAction,
) {
    match input {
        WindowInput::CloseRequested => (c, InputAction::Exit),
        WindowInput::Resized => (c, InputAction::Resize),
        WindowInput::CursorMoved => (
            Controls { cursor_known: true, ..c },
            if c.dragging && c.cursor_known {
                InputAction::Pan
            } else {
                InputAction::Nothing
            },
        ),
        WindowInput::RightPressed { world_x, world_y } => if c.cursor_known {
            (
                Controls { context_menu: Some(ContextMenu { world_x, world_y }), ..c },
                InputAction::Redraw,
            )
        } else {
            (c, InputAction::Nothing)
        },
        WindowInput::LeftPressed => if c.context_menu is Some {
            (Controls { context_menu: None, ..c }, InputAction::Redraw)
        } else {
            (Controls { dragging: true, ..c }, InputAction::Nothing)
        },
        WindowInput::LeftReleased => (Controls { dragging: false, ..c }, InputAction::Nothing),
        WindowInput::Escape => if c.context_menu is Some {
            (Controls { context_menu: None, ..c }, InputAction::Redraw)
        } else {
            (c, InputAction::Nothing)
        },
        WindowInput::Space => (c, InputAction::Send(ClientMessage::SetPaused(!sim_paused))),
        WindowInput::Typed(key) => if key == '.' {
            (c, InputAction::Send(ClientMessage::Step))
        } else if key == 'h' || key == 'H' {
            (Controls { ui_visible: !c.ui_visible, ..c }, InputAction::Redraw)
        } else {
            match layer_key(c.layer_flags, key) {
                Some(layer_flags) => (Controls { layer_flags, ..c }, InputAction::Redraw),
                None => (c, InputAction::Nothing),
            }
        },
        WindowInput::Wheel => (c, InputAction::Zoom),
        WindowInput::Touch => (c, InputAction::Gesture),
        WindowInput::RedrawRequested => (c, InputAction::Render),
        WindowInput::Other => (c, InputAction::Nothing),
    }
}

impl Controls {
    /// All layers shown without a tint, the panels visible.
    pub fn new() -> (controls: Self)
        ensures
            controls == (Controls {
                layer_flags: LAYER_ORGANIC | LAYER_FG | LAYER_ENERGY,
                ui_visible: true,
                dragging: false,
                cursor_known: false,
                context_menu: None,
            }),
    {
        Controls {
            layer_flags: LAYER_ORGANIC | LAYER_FG | LAYER_ENERGY,
            ui_visible: true,
            dragging: false,
            cursor_known: false,
            context_menu: None,
        }
    }

    /// Take an event of the window in.
    pub fn handle(&mut self, input: WindowInput, sim_paused: bool) -> (action: InputAction)
        ensures
            (*final(self), action) == handled(*old(self), input, sim_paused),
    {
        match input {
            WindowInput::CloseRequested => InputAction::Exit,
            WindowInput::Resized => InputAction::Resize,
            WindowInput::CursorMoved => {
                let pan = self.dragging && self.cursor_known;
                self.cursor_known = true;
                if pan {
                    InputAction::Pan
                } else {
                    InputAction::Nothing
                }
            },
            WindowInput::RightPressed { world_x, world_y } => {
                if self.cursor_known {
                    self.context_menu = Some(ContextMenu { world_x, world_y });
                    InputAction::Redraw
                } else {
                    InputAction::Nothing
                }
            },
            WindowInput::LeftPressed => {
                if self.context_menu.is_some() {
                    self.context_menu = None;
                    InputAction::Redraw
                } else {
                    self.dragging = true;
                    InputAction::Nothing
                }
            },
            WindowInput::LeftReleased => {
                self.dragging = false;
                InputAction::Nothing
            },
            WindowInput::Escape => {
                if self.context_menu.is_some() {
                    self.context_menu = None;
                    InputAction::Redraw
                } else {
                    InputAction::Nothing
                }
            },
            WindowInput::Space => InputAction::Send(pause_request(sim_paused)),
            WindowInput::Typed(key) => {
                if key == '.' {
                    InputAction::Send(ClientMessage::Step)
                } else if key == 'h' || key == 'H' {
                    self.ui_visible = !self.ui_visible;
                    InputAction::Redraw
                } else {
                    match press_layer_key(self.layer_flags, key) {
                        Some(layer_flags) => {
                            self.layer_flags = layer_flags;
                            InputAction::Redraw
                        },
                        None => InputAction::Nothing,
                    }
                }
            },
            WindowInput::Wheel => InputAction::Zoom,
            WindowInput::Touch => InputAction::Gesture,
            WindowInput::RedrawRequested => InputAction::Render,
            WindowInput::Other => InputAction::Nothing,
        }
    }

    /// The open context menu's button that plants a sprout was pressed: the menu
    /// closes, and the request goes to the server.
    pub fn spawn_from_menu(&mut self) -> (msg: Option<ClientMessage>)
        ensures
            *final(self) == (Controls { context_menu: None, ..*old(self) }),
            msg == (match old(self).context_menu {
                Some(menu) => Some(
                    ClientMessage::SpawnSprout {
                        x: menu.world_x,
                        y: menu.world_y,
                        facing: Direction::North,
                    },
                ),
                None => None,
            }),
    {
        let msg = match self.context_menu {
            Some(menu) => Some(
                ClientMessage::SpawnSprout {
                    x: menu.world_x,
                    y: menu.world_y,
                    facing: Direction::North,
                },
            ),
            None => None,
        };
        self.context_menu = None;
        msg
    }
}

/// When the next frame is due.
#[derive(Clone, Copy, Debug, PartialEq, Eq, Structural)]
pub enum NextFrame {
    Now,
    /// After the delay.
    Later,
    /// When something happens.
    OnEvent,
}

/// When the next frame is due, by the delay that the panels asked for; the greatest
/// delay means that they ask for none.
pub fn next_frame(delay_secs: u64, delay_nanos: u32) -> (next: NextFrame)
    ensures
        next == (if delay_secs == 0 && delay_nanos == 0 {
            NextFrame::Now
        } else if delay_secs == u64::MAX && delay_nanos >= 999_999_999 {
            NextFrame::OnEvent
        } else {
            NextFrame::Later
        }),
{
    if delay_secs == 0 && delay_nanos == 0 {
        NextFrame::Now
    } else if delay_secs == u64::MAX && delay_nanos >= 999_999_999 {
        NextFrame::OnEvent
    } else {
        NextFrame::Later
    }
}

// ---------------------------------------------------------------------------
// The dialog that regenerates the world
// ---------------------------------------------------------------------------
/// What was pressed in the dialog.
#[derive(Clone, Copy, Debug, PartialEq, Eq, Structural)]
pub struct DialogClicks {
    pub randomize: bool,
    pub submit: bool,
    pub cancel: bool,
}

/// What becomes of the dialog.
#[derive(Clone, Copy, Debug, PartialEq, Eq, Structural)]
pub struct DialogOutcome {
    /// The dialog gets a random seed.
    pub new_seed: bool,
    /// The world is regenerated with this seed.
    pub regenerate: Option<u64>,
    pub close: bool,
}

/// What becomes of the dialog: a random seed comes before everything else, only a
/// seed that can be read is sent, and sending closes the dialog.
pub open spec fn dialog_step(seed_text: Seq<char>, clicks: DialogClicks) -> DialogOutcome {
    let regenerate = if clicks.submit && !clicks.randomize {
        seed_of(seed_text)
    } else {
        None
    };
    DialogOutcome {
        new_seed: clicks.randomize,
        regenerate,
        close: clicks.cancel || regenerate is Some,
    }
}

/// Decide what becomes of the dialog.
pub fn dialog_outcome(seed_text: &str, clicks: DialogClicks) -> (outcome: DialogOutcome)
    ensures
        outcome == dialog_step(seed_text@, clicks),
{
    let regenerate = if clicks.submit && !clicks.randomize {
        parse_seed(seed_text)
    } else {
        None
    };
    DialogOutcome {
        new_seed: clicks.randomize,
        regenerate,
        close: clicks.cancel || regenerate.is_some(),
    }
}

/// What a bit of a layer shows.
pub open spec fn on(flags: u32, layer: u32) -> bool {
    flags & layer != 0
}

/// The keys of the layers: the first three switch the organic matter, the soil energy and the
/// occupants, the next two the tints by clan and by mutation rate, of which the one that is
/// switched on replaces the other. Nothing else is switched, and other keys switch nothing.
pub proof fn lemma_layer_keys_switch_their_layer(flags: u32, key: char)
    ensures
        match layer_key(flags, key) {
            Some(after) => {
                &&& key == '1' || key == '2' || key == '3' || key == '4' || key == '5'
                &&& on(after, LAYER_ORGANIC) == (on(flags, LAYER_ORGANIC) != (key == '1'))
                &&& on(after, LAYER_ENERGY) == (on(flags, LAYER_ENERGY) != (key == '2'))
                &&& on(after, LAYER_FG) == (on(flags, LAYER_FG) != (key == '3'))
                &&& key == '4' ==> on(after, LAYER_CLAN) != on(flags, LAYER_CLAN)
                &&& key == '4' && on(after, LAYER_CLAN) ==> !on(after, LAYER_MUTATION_RATE)
                &&& key == '4' && !on(after, LAYER_CLAN) ==> on(after, LAYER_MUTATION_RATE) == on(
                    flags,
                    LAYER_MUTATION_RATE,
                )
                &&& key == '5' ==> on(after, LAYER_MUTATION_RATE) != on(flags, LAYER_MUTATION_RATE)
                &&& key == '5' && on(after, LAYER_MUTATION_RATE) ==> !on(after, LAYER_CLAN)
                &&& key == '5' && !on(after, LAYER_MUTATION_RATE) ==> on(after, LAYER_CLAN) == on(
                    flags,
                    LAYER_CLAN,
                )
                &&& key != '4' && key != '5' ==> on(after, LAYER_CLAN) == on(flags, LAYER_CLAN) && on(
                    after,
                    LAYER_MUTATION_RATE,
                ) == on(flags, LAYER_MUTATION_RATE)
            },
            None => key != '1' && key != '2' && key != '3' && key != '4' && key != '5',
        },
{
    assert({
        let a = flags ^ 1u32;
        let b = flags ^ 4u32;
        let c = flags ^ 2u32;
        &&& (a & 1 != 0) == !(flags & 1 != 0) && a & 2 == flags & 2 && a & 4 == flags & 4 && a & 8
            == flags & 8 && a & 16 == flags & 16
        &&& (b & 4 != 0) == !(flags & 4 != 0) && b & 1 == flags & 1 && b & 2 == flags & 2 && b & 8
            == flags & 8 && b & 16 == flags & 16
        &&& (c & 2 != 0) == !(flags & 2 != 0) && c & 1 == flags & 1 && c & 4 == flags & 4 && c & 8
            == flags & 8 && c & 16 == flags & 16
    }) by (bit_vector);
    assert({
        let a = flags & !8u32;
        let b = (flags & !16u32) | 8u32;
        &&& a & 8 == 0 && a & 1 == flags & 1 && a & 2 == flags & 2 && a & 4 == flags & 4 && a & 16
            == flags & 16
        &&& b & 8 != 0 && b & 16 == 0 && b & 1 == flags & 1 && b & 2 == flags & 2 && b & 4 == flags & 4
    }) by (bit_vector);
    assert({
        let a = flags & !16u32;
        let b = (flags & !8u32) | 16u32;
        &&& a & 16 == 0 && a & 1 == flags & 1 && a & 2 == flags & 2 && a & 4 == flags & 4 && a & 8
            == flags & 8
        &&& b & 16 != 0 && b & 8 == 0 && b & 1 == flags & 1 && b & 2 == flags & 2 && b & 4 == flags & 4
    }) by (bit_vector);
}

/// Switching a layer on or off leaves it so, and every layer that shares no bit with it as it
/// was.
pub proof fn lemma_set_layers_stay_set(flags: u32, layer: u32, other: u32, to: bool)
    requires
        layer != 0,
        layer & other == 0,
    ensures
        on(layer_set(flags, layer, to), layer) == to,
        on(layer_set(flags, layer, to), other) == on(flags, other),
{
    assert((flags & !layer) & layer == 0) by (bit_vector);
    assert(layer != 0 ==> ((flags & !layer) | layer) & layer != 0) by (bit_vector);
    assert(layer & other == 0 ==> (flags & !layer) & other == flags & other) by (bit_vector);
    assert(layer & other == 0 ==> ((flags & !layer) | layer) & other == flags & other) by (bit_vector);
}

/// The mouse drags the world while the left button is down: a move of the cursor pans then,
/// if it is known where the cursor came from, and at no other time.
pub proof fn lemma_the_world_is_dragged(c: Controls, sim_paused: bool)
    requires
        c.context_menu is None,
    ensures
        ({
            let down = handled(c, WindowInput::LeftPressed, sim_paused).0;
            let moved = handled(down, WindowInput::CursorMoved, sim_paused);
            let again = handled(moved.0, WindowInput::CursorMoved, sim_paused);
            let up = handled(again.0, WindowInput::LeftReleased, sim_paused).0;
            let last = handled(up, WindowInput::CursorMoved, sim_paused);
            &&& moved.1 is Pan == c.cursor_known
            &&& again.1 is Pan
            &&& last.1 is Nothing
            &&& last.0.cursor_known && !last.0.dragging
            &&& last.0.layer_flags == c.layer_flags && last.0.ui_visible == c.ui_visible
                && last.0.context_menu is None
        }),
{
}

/// A press of the right button opens the menu of the cell under a cursor that is known; a
/// press of the left button or the escape key closes it again and does nothing else.
pub proof fn lemma_menus_open_and_close(c: Controls, world_x: i32, world_y: i32, sim_paused: bool)
    ensures
        ({
            let opened = handled(c, WindowInput::RightPressed { world_x, world_y }, sim_paused);
            let clicked = handled(opened.0, WindowInput::LeftPressed, sim_paused);
            let escaped = handled(opened.0, WindowInput::Escape, sim_paused);
            &&& !c.cursor_known ==> opened.0 == c && opened.1 is Nothing
            &&& c.cursor_known ==> {
                &&& opened.0.context_menu == Some(ContextMenu { world_x, world_y })
                &&& opened.1 is Redraw && clicked.1 is Redraw && escaped.1 is Redraw
                &&& clicked.0 == (Controls { context_menu: None, ..c })
                &&& escaped.0 == (Controls { context_menu: None, ..c })
            }
        }),
{
}

/// The keys: space asks for the other state of the pause, a dot for a step, and H shows or
/// hides the panels; what the window asks for is handed on.
pub proof fn lemma_keys_ask_the_server(c: Controls, sim_paused: bool)
    ensures
        handled(c, WindowInput::Space, sim_paused) == (
            c,
            InputAction::Send(ClientMessage::SetPaused(!sim_paused)),
        ),
        handled(c, WindowInput::Typed('.'), sim_paused) == (c, InputAction::Send(ClientMessage::Step)),
        handled(c, WindowInput::Typed('h'), sim_paused).0.ui_visible != c.ui_visible,
        handled(
            handled(c, WindowInput::Typed('h'), sim_paused).0,
            WindowInput::Typed('H'),
            sim_paused,
        ).0 == c,
        handled(c, WindowInput::CloseRequested, sim_paused).1 is Exit,
        handled(c, WindowInput::Resized, sim_paused).1 is Resize,
        handled(c, WindowInput::Wheel, sim_paused).1 is Zoom,
        handled(c, WindowInput::Touch, sim_paused).1 is Gesture,
        handled(c, WindowInput::RedrawRequested, sim_paused).1 is Render,
        handled(c, WindowInput::Other, sim_paused) == (c, InputAction::Nothing),
        handled(c, WindowInput::CloseRequested, sim_paused).0 == c,
        handled(c, WindowInput::Resized, sim_paused).0 == c,
        handled(c, WindowInput::Wheel, sim_paused).0 == c,
        handled(c, WindowInput::Touch, sim_paused).0 == c,
        handled(c, WindowInput::RedrawRequested, sim_paused).0 == c,
{
}

/// The dialog regenerates the world exactly when it is submitted with a seed that can be read
/// and no random seed is asked for; then it closes, and else only when it is cancelled.
pub proof fn lemma_the_dialog_sends_readable_seeds(seed_text: Seq<char>, clicks: DialogClicks)
    ensures
        ({
            let out = dialog_step(seed_text, clicks);
            &&& out.new_seed == clicks.randomize
            &&& clicks.submit && !clicks.randomize ==> out.regenerate == seed_of(seed_text)
            &&& !clicks.submit || clicks.randomize ==> out.regenerate is None
            &&& out.close == (clicks.cancel || out.regenerate is Some)
        }),
{
}

} // verus!
