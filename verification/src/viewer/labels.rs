//! Short texts that describe cells.
use vstd::prelude::*;
use crate::grid::{dir_at, has_dir, mask_dirs};
use crate::protocol::{Direction, WireOccupant, STEM_CONNECT_EAST, STEM_CONNECT_NORTH, STEM_CONNECT_SOUTH};
use crate::protocol::STEM_CONNECT_WEST;

verus! {

/// The name of a kind of occupant.
pub open spec fn kind_label(occ: WireOccupant) -> Seq<char> {
    match occ {
        WireOccupant::Empty => "empty"@,
        WireOccupant::Leaf { .. } => "leaf"@,
        WireOccupant::Root { .. } => "root"@,
        WireOccupant::Stem { .. } => "stem"@,
        WireOccupant::Antenna { .. } => "antenna"@,
        WireOccupant::Sprout { .. } => "sprout"@,
        WireOccupant::Seed { .. } => "seed"@,
    }
}

/// The name of an occupant's kind.
pub fn occupant_kind_label(occ: &WireOccupant) -> (label: &'static str)
    ensures
        label@ == kind_label(*occ),
{
    match occ {
        WireOccupant::Empty => "empty",
        WireOccupant::Leaf { .. } => "leaf",
        WireOccupant::Root { .. } => "root",
        WireOccupant::Stem { .. } => "stem",
        WireOccupant::Antenna { .. } => "antenna",
        WireOccupant::Sprout { .. } => "sprout",
        WireOccupant::Seed { .. } => "seed",
    }
}

/// The name of a direction.
pub open spec fn dir_name(d: Direction) -> Seq<char> {
    match d {
        Direction::North => "North"@,
        Direction::East => "East"@,
        Direction::South => "South"@,
        Direction::West => "West"@,
    }
}

/// The name of a parent direction, or a dash.
pub open spec fn parent_text(p: Option<Direction>) -> Seq<char> {
    match p {
        Some(d) => dir_name(d),
        None => "—"@,
    }
}

/// The name of a parent direction, or a dash.
pub fn parent_label(p: Option<Direction>) -> (label: String)
    ensures
        label@ == parent_text(p),
{
    match p {
        None => "—".to_owned(),
        Some(Direction::North) => "North".to_owned(),
        Some(Direction::East) => "East".to_owned(),
        Some(Direction::South) => "South".to_owned(),
        Some(Direction::West) => "West".to_owned(),
    }
}

/// The initial of the `k`-th direction.
pub open spec fn dir_initial(k: int) -> Seq<char> {
    if k == 0 {
        "N"@
    } else if k == 1 {
        "E"@
    } else if k == 2 {
        "S"@
    } else {
        "W"@
    }
}

/// The initials of the directions that a mask names among the first `k`, separated
/// by bars.
pub open spec fn initials(mask: u8, k: nat) -> Seq<char>
    decreases k,
{
    if k == 0 {
        Seq::empty()
    } else {
        let before = initials(mask, (k - 1) as nat);
        if !has_dir(mask, dir_at(k - 1)) {
            before
        } else if before.len() == 0 {
            dir_initial(k - 1)
        } else {
            before + "|"@ + dir_initial(k - 1)
        }
    }
}

/// The directions that a mask names, or a dash.
pub open spec fn connections_text(c: u8) -> Seq<char> {
    if initials(c, 4).len() == 0 {
        "—"@
    } else {
        initials(c, 4)
    }
}

/// The initials of the directions in a mask, or a dash.
pub fn connections_label(c: u8) -> (label: String)
    ensures
        label@ == connections_text(c),
{
    let mut label = String::new();
    proof {
        reveal_with_fuel(initials, 5);
    }
    if c & STEM_CONNECT_NORTH != 0 {
        label.append("N");
    }
    assert(label@ =~= initials(c, 1));
    if c & STEM_CONNECT_EAST != 0 {
        if !label.as_str().is_empty() {
            label.append("|");
        }
        label.append("E");
    }
    assert(label@ =~= initials(c, 2));
    if c & STEM_CONNECT_SOUTH != 0 {
        if !label.as_str().is_empty() {
            label.append("|");
        }
        label.append("S");
    }
    assert(label@ =~= initials(c, 3));
    if c & STEM_CONNECT_WEST != 0 {
        if !label.as_str().is_empty() {
            label.append("|");
        }
        label.append("W");
    }
    assert(label@ =~= initials(c, 4));
    if label.as_str().is_empty() {
        "—".to_owned()
    } else {
        label
    }
}

/// The first letters of the names of directions, with bars between them.
pub open spec fn joined(dirs: Seq<Direction>) -> Seq<char>
    decreases dirs.len(),
{
    if dirs.len() == 0 {
        Seq::empty()
    } else if dirs.len() == 1 {
        seq![dir_name(dirs[0])[0]]
    } else {
        joined(dirs.drop_last()).push('|').push(dir_name(dirs.last())[0])
    }
}

/// The label of a set of links lists the first letters of their directions in turn, or shows a
/// dash where there are none.
pub proof fn lemma_links_are_listed(c: u8)
    ensures
        mask_dirs(c, 4).len() > 0 ==> connections_text(c) == joined(mask_dirs(c, 4)),
        mask_dirs(c, 4).len() == 0 ==> connections_text(c) == "—"@,
{
    lemma_listed(c, 4);
}

proof fn lemma_listed(c: u8, k: nat)
    requires
        k <= 4,
    ensures
        initials(c, k) == joined(mask_dirs(c, k)),
        (initials(c, k).len() == 0) == (mask_dirs(c, k).len() == 0),
    decreases k,
{
    if k > 0 {
        lemma_listed(c, (k - 1) as nat);
        reveal_strlit("North");
        reveal_strlit("East");
        reveal_strlit("South");
        reveal_strlit("West");
        reveal_strlit("N");
        reveal_strlit("E");
        reveal_strlit("S");
        reveal_strlit("W");
        reveal_strlit("|");
        let before = mask_dirs(c, (k - 1) as nat);
        let d = dir_at(k - 1);
        assert(dir_initial(k - 1) =~= seq![dir_name(d)[0]]);
        assert("|"@ =~= seq!['|']);
        if has_dir(c, d) {
            assert(before.push(d).drop_last() =~= before);
            assert(initials(c, k) =~= joined(before.push(d)));
        }
    }
}

} // verus!
