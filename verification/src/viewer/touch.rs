//! Gestures of one and two fingers.
use vstd::prelude::*;

verus! {

/// How long a finger has to stay down for a long press, in nanoseconds.
pub const LONG_PRESS_NANOS: u64 = 500_000_000;

/// A finger on the screen.
#[derive(Clone, Copy, Debug, PartialEq, Eq, Structural)]
pub struct TouchPoint {
    pub id: u64,
    /// When it went down, in nanoseconds.
    pub start: u64,
    /// It went down on a panel, so it does not move the world.
    pub started_over_ui: bool,
    /// It has taken part in a pinch, so it is no long press.
    pub pinched: bool,
}

/// What happened to a finger.
#[derive(Clone, Copy, Debug, PartialEq, Eq, Structural)]
pub enum TouchChange {
    Started { over_ui: bool },
    Moved,
    /// It left the screen; `still` tells whether it stayed close to where it went
    /// down.
    Ended { still: bool },
}

/// What a touch means.
#[derive(Clone, Copy, Debug, PartialEq, Eq, Structural)]
pub enum Gesture {
    Nothing,
    /// The camera follows the finger.
    Pan,
    /// The camera zooms by the distance of two fingers.
    Pinch(u64, u64),
    /// The context menu opens.
    LongPress,
}

/// Where a finger is found among the first `m`.
pub open spec fn finger_at(s: Seq<TouchPoint>, id: u64, m: nat) -> Option<int>
    decreases m,
{
    if m == 0 {
        None
    } else if s[m - 1].id == id {
        Some(m - 1)
    } else {
        finger_at(s, id, (m - 1) as nat)
    }
}

/// No two fingers have the same number.
pub open spec fn distinct(s: Seq<TouchPoint>) -> bool {
    forall|i: int, j: int| 0 <= i < j < s.len() ==> s[i].id != s[j].id
}

/// A finger that takes part in a pinch.
pub open spec fn pinching(t: TouchPoint) -> TouchPoint {
    TouchPoint { pinched: true, ..t }
}

/// Whether a finger that leaves made a long press: it was alone, stayed long and
/// still, and neither touched a panel nor pinched.
pub open spec fn is_long_press(t: TouchPoint, alone: bool, now: u64, still: bool) -> bool {
    &&& !t.started_over_ui
    &&& !t.pinched
    &&& alone
    &&& now - t.start >= LONG_PRESS_NANOS
    &&& still
}

/// The fingers after a change, and what it means.
pub open spec fn touched(s: Seq<TouchPoint>, id: u64, change: TouchChange, now: u64) -> (
    Seq<TouchPoint>,
    Gesture,
) {
    let at = finger_at(s, id, s.len());
    match change {
        TouchChange::Started { over_ui } => {
            let t = TouchPoint { id, start: now, started_over_ui: over_ui, pinched: false };
            (
                match at {
                    Some(k) => s.update(k, t),
                    None => s.push(t),
                },
                Gesture::Nothing,
            )
        },
        TouchChange::Moved => if s.len() == 2 {
            (
                seq![pinching(s[0]), pinching(s[1])],
                if s[0].started_over_ui || s[1].started_over_ui {
                    Gesture::Nothing
                } else {
                    Gesture::Pinch(s[0].id, s[1].id)
                },
            )
        } else if s.len() == 1 && s[0].id == id && !s[0].started_over_ui {
            (s, Gesture::Pan)
        } else {
            (s, Gesture::Nothing)
        },
        TouchChange::Ended { still } => match at {
            Some(k) => (
                s.remove(k),
                if is_long_press(s[k], s.len() == 1, now, still) {
                    Gesture::LongPress
                } else {
                    Gesture::Nothing
                },
            ),
            None => (s, Gesture::Nothing),
        },
    }
}

/// The fingers on the screen.
#[derive(Debug)]
pub struct Touches {
    points: Vec<TouchPoint>,
}

impl View for Touches {
    type V = Seq<TouchPoint>;

    closed spec fn view(&self) -> Seq<TouchPoint> {
        self.points@
    }
}

impl Touches {
    /// No fingers on the screen.
    pub fn new() -> (touches: Self)
        ensures
            touches@ == Seq::<TouchPoint>::empty(),
    {
        Touches { points: Vec::new() }
    }

    fn find(&self, id: u64) -> (at: Option<usize>)
        ensures
            match at {
                Some(k) => k < self@.len() && finger_at(self@, id, self@.len()) == Some(k as int),
                None => finger_at(self@, id, self@.len()) is None,
            },
    {
        let mut m: usize = self.points.len();
        while m > 0
            invariant
                m <= self.points.len(),
                finger_at(self@, id, self@.len()) == finger_at(self@, id, m as nat),
            decreases m,
        {
            if self.points[m - 1].id == id {
                return Some(m - 1);
            }
            m = m - 1;
        }
        None
    }

    /// Whether a finger is known.
    pub fn contains(&self, id: u64) -> (yes: bool)
        ensures
            yes == finger_at(self@, id, self@.len()) is Some,
    {
        self.find(id).is_some()
    }

    /// Take a change in.
    pub fn handle(&mut self, id: u64, change: TouchChange, now: u64) -> (gesture: Gesture)
        ensures
            (final(self)@, gesture) == touched(old(self)@, id, change, now),
    {
        match change {
            TouchChange::Started { over_ui } => {
                let t = TouchPoint { id, start: now, started_over_ui: over_ui, pinched: false };
                match self.find(id) {
                    Some(k) => {
                        self.points.set(k, t);
                    },
                    None => {
                        self.points.push(t);
                    },
                }
                Gesture::Nothing
            },
            TouchChange::Moved => {
                if self.points.len() == 2 {
                    let a = self.points[0];
                    let b = self.points[1];
                    self.points.set(0, TouchPoint { pinched: true, ..a });
                    self.points.set(1, TouchPoint { pinched: true, ..b });
                    assert(self@ =~= seq![pinching(a), pinching(b)]);
                    if a.started_over_ui || b.started_over_ui {
                        Gesture::Nothing
                    } else {
                        Gesture::Pinch(a.id, b.id)
                    }
                } else if self.points.len() == 1 && self.points[0].id == id
                    && !self.points[0].started_over_ui {
                    Gesture::Pan
                } else {
                    Gesture::Nothing
                }
            },
            TouchChange::Ended { still } => {
                match self.find(id) {
                    Some(k) => {
                        let alone = self.points.len() == 1;
                        let t = self.points.remove(k);
                        if !t.started_over_ui && !t.pinched && alone && now >= t.start && now
                            - t.start >= LONG_PRESS_NANOS && still {
                            Gesture::LongPress
                        } else {
                            Gesture::Nothing
                        }
                    },
                    None => Gesture::Nothing,
                }
            },
        }
    }
}

proof fn lemma_finger_at(s: Seq<TouchPoint>, id: u64, m: nat)
    requires
        m <= s.len(),
    ensures
        match finger_at(s, id, m) {
            Some(k) => 0 <= k < m && s[k].id == id,
            None => forall|i: int| 0 <= i < m ==> s[i].id != id,
        },
    decreases m,
{
    if m > 0 {
        lemma_finger_at(s, id, (m - 1) as nat);
    }
}

/// Fingers stay distinct whatever happens.
pub proof fn lemma_touches_stay_distinct(s: Seq<TouchPoint>, id: u64, change: TouchChange, now: u64)
    requires
        distinct(s),
    ensures
        distinct(touched(s, id, change, now).0),
{
    lemma_finger_at(s, id, s.len());
}

/// A finger that has taken part in a pinch makes no long press when it leaves, nor
/// does one that went down on a panel.
pub proof fn lemma_no_long_press(s: Seq<TouchPoint>, k: int, now: u64, still: bool)
    requires
        distinct(s),
        0 <= k < s.len(),
        s[k].pinched || s[k].started_over_ui,
    ensures
        touched(s, s[k].id, TouchChange::Ended { still }, now).1 == Gesture::Nothing,
{
    lemma_finger_at(s, s[k].id, s.len());
    let at = finger_at(s, s[k].id, s.len())->0;
    assert(at == k) by {
        if at < k {
            assert(s[at].id != s[k].id);
        } else if k < at {
            assert(s[k].id != s[at].id);
        }
    }
}

/// A finger that goes down is on the screen from then on, from now and without a pinch; one
/// that leaves is not; and the others stay.
pub proof fn lemma_fingers_come_and_go(s: Seq<TouchPoint>, id: u64, over_ui: bool, still: bool, now: u64)
    requires
        distinct(s),
    ensures
        ({
            let down = touched(s, id, TouchChange::Started { over_ui }, now);
            let up = touched(s, id, TouchChange::Ended { still }, now);
            &&& down.1 == Gesture::Nothing
            &&& exists|k: int|
                0 <= k < down.0.len() && #[trigger] down.0[k] == (TouchPoint {
                    id,
                    start: now,
                    started_over_ui: over_ui,
                    pinched: false,
                })
            &&& forall|k: int| 0 <= k < up.0.len() ==> (#[trigger] up.0[k]).id != id
            &&& forall|k: int|
                0 <= k < s.len() && (#[trigger] s[k]).id != id ==> down.0.contains(s[k]) && up.0.contains(
                    s[k],
                )
        }),
{
    lemma_finger_at(s, id, s.len());
    let down = touched(s, id, TouchChange::Started { over_ui }, now).0;
    let up = touched(s, id, TouchChange::Ended { still }, now).0;
    let at = finger_at(s, id, s.len());
    match at {
        Some(k) => {
            assert(down[k].id == id);
            assert forall|j: int| 0 <= j < up.len() implies (#[trigger] up[j]).id != id by {
                if j < k {
                    assert(up[j] == s[j]);
                    assert(s[j].id != s[k].id);
                } else {
                    assert(up[j] == s[j + 1]);
                    assert(s[k].id != s[j + 1].id);
                }
            }
            assert forall|j: int| 0 <= j < s.len() && (#[trigger] s[j]).id != id implies down.contains(s[j])
                && up.contains(s[j]) by {
                assert(down[j] == s[j]);
                if j < k {
                    assert(up[j] == s[j]);
                } else {
                    assert(up[j - 1] == s[j]);
                }
            }
        },
        None => {
            assert(down[s.len() as int].id == id);
            assert forall|j: int| 0 <= j < s.len() && (#[trigger] s[j]).id != id implies down.contains(s[j])
                && up.contains(s[j]) by {
                assert(down[j] == s[j]);
                assert(up[j] == s[j]);
            }
        },
    }
}

/// One finger that went down on the world pans, two that did pinch, and neither happens on a
/// panel or with more fingers; a pinch marks both fingers.
pub proof fn lemma_fingers_pan_and_pinch(s: Seq<TouchPoint>, id: u64, now: u64)
    ensures
        ({
            let moved = touched(s, id, TouchChange::Moved, now);
            &&& s.len() == 1 && s[0].id == id ==> moved.0 == s && moved.1 == (if s[0].started_over_ui {
                Gesture::Nothing
            } else {
                Gesture::Pan
            })
            &&& s.len() == 2 ==> {
                &&& moved.1 == (if s[0].started_over_ui || s[1].started_over_ui {
                    Gesture::Nothing
                } else {
                    Gesture::Pinch(s[0].id, s[1].id)
                })
                &&& moved.0.len() == 2 && moved.0[0].pinched && moved.0[1].pinched
                &&& moved.0[0].id == s[0].id && moved.0[1].id == s[1].id
                &&& moved.0[0].start == s[0].start && moved.0[1].start == s[1].start
                &&& moved.0[0].started_over_ui == s[0].started_over_ui && moved.0[1].started_over_ui
                    == s[1].started_over_ui
            }
            &&& s.len() == 0 || s.len() > 2 ==> moved == (s, Gesture::Nothing)
        }),
{
}

/// A finger that leaves opens the menu exactly if it was the only one, went down on the world,
/// stayed in its place for long enough and never took part in a pinch.
pub proof fn lemma_a_long_press_is_alone_long_and_still(t: TouchPoint, now: u64, still: bool)
    requires
        now >= t.start,
    ensures
        touched(seq![t], t.id, TouchChange::Ended { still }, now).1 == (if !t.started_over_ui
            && !t.pinched && still && now - t.start >= LONG_PRESS_NANOS {
            Gesture::LongPress
        } else {
            Gesture::Nothing
        }),
{
    let s = seq![t];
    reveal_with_fuel(finger_at, 2);
    assert(finger_at(s, t.id, 1) == Some(0int));
}

} // verus!
