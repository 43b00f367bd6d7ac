//! The lines that describe a cell.
use vstd::prelude::*;
use crate::protocol::{told_owner, Direction, WireCell, WireOccupant, RATE_SCALE};
use crate::text::{decimal, decimal_text, digit_char, digits_value, lemma_digit_char};
use crate::viewer::history::texts;
use crate::viewer::labels::{connections_label, connections_text, dir_name, kind_label, occupant_kind_label};
use crate::viewer::labels::{parent_label, parent_text};

verus! {

/// A line with a number.
pub open spec fn number_line(name: Seq<char>, n: nat) -> Seq<char> {
    name + decimal(n)
}

/// What is common to all occupants.
pub open spec fn owner_lines(plant: u32, clan: u8, energy: u16) -> Seq<Seq<char>> {
    seq![
        number_line("  plant: "@, plant as nat),
        number_line("  clan: "@, clan as nat),
        number_line("  energy: "@, energy as nat),
    ]
}

/// The lines that describe an occupant.
pub open spec fn occupant_lines(occ: WireOccupant) -> Seq<Seq<char>> {
    match occ {
        WireOccupant::Empty => Seq::empty(),
        WireOccupant::Leaf { plant, clan, energy, facing, parent } => owner_lines(
            plant,
            clan,
            energy,
        ) + seq!["  facing: "@ + dir_name(facing), "  parent: "@ + parent_text(parent)],
        WireOccupant::Root { plant, clan, energy, parent } => owner_lines(plant, clan, energy).push(
            "  parent: "@ + parent_text(parent),
        ),
        WireOccupant::Stem { plant, clan, energy, connections, parent, children } => owner_lines(
            plant,
            clan,
            energy,
        ) + seq![
            "  parent: "@ + parent_text(parent),
            "  children: "@ + connections_text(children),
            "  connections: "@ + connections_text(connections),
        ],
        WireOccupant::Antenna { plant, clan, energy, parent } => owner_lines(
            plant,
            clan,
            energy,
        ).push("  parent: "@ + parent_text(parent)),
        WireOccupant::Sprout { plant, clan, energy, facing, parent, current_gene } => owner_lines(
            plant,
            clan,
            energy,
        ) + seq![
            "  facing: "@ + dir_name(facing),
            "  parent: "@ + parent_text(parent),
            number_line("  current_gene: "@, current_gene as nat),
        ],
        WireOccupant::Seed { plant, clan, energy, facing, parent } => owner_lines(
            plant,
            clan,
            energy,
        ) + seq!["  facing: "@ + dir_name(facing), "  parent: "@ + parent_text(parent)],
    }
}

/// The last `k` decimal digits of a number.
pub open spec fn last_digits(n: nat, k: nat) -> Seq<char>
    decreases k,
{
    if k == 0 {
        Seq::empty()
    } else {
        last_digits(n / 10, (k - 1) as nat).push(digit_char((n % 10) as int))
    }
}

/// A rate as a decimal fraction with five places.
pub open spec fn shown_rate(rate: u32) -> Seq<char> {
    decimal((rate / RATE_SCALE) as nat) + "."@ + last_digits((rate % RATE_SCALE) as nat * 10, 5)
}

/// The lines above the occupant's.
pub open spec fn soil_lines(cell: WireCell) -> Seq<Seq<char>> {
    seq![
        number_line("organic: "@, cell.organic as nat),
        number_line("soil_energy: "@, cell.soil_energy as nat),
        "sunlit: "@ + (if cell.sunlit {
            "true"@
        } else {
            "false"@
        }),
    ]
}

/// The lines that describe a cell and what stands in it. The mutation rate is that of
/// the occupant's lineage, so an empty cell shows none.
pub open spec fn cell_lines(cell: WireCell) -> Seq<Seq<char>> {
    let lines = seq!["occupant: "@ + kind_label(cell.occupant)] + occupant_lines(cell.occupant);
    if cell.occupant is Empty {
        lines
    } else {
        lines.push("  mutation rate: "@ + shown_rate(cell.lineage_mutation_rate))
    }
}

pub(crate) fn line(name: &str, value: &str) -> (text: String)
    ensures
        text@ == name@ + value@,
{
    let mut text = name.to_owned();
    text.append(value);
    text
}

pub(crate) fn numbered(name: &str, n: u64) -> (text: String)
    ensures
        text@ == number_line(name@, n as nat),
{
    let value = decimal_text(n);
    line(name, value.as_str())
}

fn direction_text(d: Direction) -> (text: &'static str)
    ensures
        text@ == dir_name(d),
{
    match d {
        Direction::North => "North",
        Direction::East => "East",
        Direction::South => "South",
        Direction::West => "West",
    }
}

pub(crate) fn put(lines: &mut Vec<String>, text: String)
    ensures
        texts(final(lines)@) == texts(old(lines)@).push(text@),
{
    lines.push(text);
    assert(texts(lines@) =~= texts(old(lines)@).push(text@));
}

fn put_owner(lines: &mut Vec<String>, plant: u32, clan: u8, energy: u16)
    ensures
        texts(final(lines)@) == texts(old(lines)@) + owner_lines(plant, clan, energy),
{
    put(lines, numbered("  plant: ", plant as u64));
    put(lines, numbered("  clan: ", clan as u64));
    put(lines, numbered("  energy: ", energy as u64));
    assert(texts(lines@) =~= texts(old(lines)@) + owner_lines(plant, clan, energy));
}

fn put_parent(lines: &mut Vec<String>, parent: Option<Direction>)
    ensures
        texts(final(lines)@) == texts(old(lines)@).push("  parent: "@ + parent_text(parent)),
{
    let label = parent_label(parent);
    put(lines, line("  parent: ", label.as_str()));
}

fn put_links(lines: &mut Vec<String>, name: &str, mask: u8)
    ensures
        texts(final(lines)@) == texts(old(lines)@).push(name@ + connections_text(mask)),
{
    let label = connections_label(mask);
    put(lines, line(name, label.as_str()));
}

fn put_occupant(lines: &mut Vec<String>, occ: &WireOccupant)
    ensures
        texts(final(lines)@) == texts(old(lines)@) + occupant_lines(*occ),
{
    match occ {
        WireOccupant::Empty => {},
        WireOccupant::Leaf { plant, clan, energy, facing, parent } => {
            put_owner(lines, *plant, *clan, *energy);
            put(lines, line("  facing: ", direction_text(*facing)));
            put_parent(lines, *parent);
        },
        WireOccupant::Root { plant, clan, energy, parent } => {
            put_owner(lines, *plant, *clan, *energy);
            put_parent(lines, *parent);
        },
        WireOccupant::Stem { plant, clan, energy, connections, parent, children } => {
            put_owner(lines, *plant, *clan, *energy);
            put_parent(lines, *parent);
            put_links(lines, "  children: ", *children);
            put_links(lines, "  connections: ", *connections);
        },
        WireOccupant::Antenna { plant, clan, energy, parent } => {
            put_owner(lines, *plant, *clan, *energy);
            put_parent(lines, *parent);
        },
        WireOccupant::Sprout { plant, clan, energy, facing, parent, current_gene } => {
            put_owner(lines, *plant, *clan, *energy);
            put(lines, line("  facing: ", direction_text(*facing)));
            put_parent(lines, *parent);
            put(lines, numbered("  current_gene: ", *current_gene as u64));
        },
        WireOccupant::Seed { plant, clan, energy, facing, parent } => {
            put_owner(lines, *plant, *clan, *energy);
            put(lines, line("  facing: ", direction_text(*facing)));
            put_parent(lines, *parent);
        },
    }
    assert(texts(lines@) =~= texts(old(lines)@) + occupant_lines(*occ));
}

fn last_digits_text(n: u64, k: u32) -> (text: String)
    ensures
        text@ == last_digits(n as nat, k as nat),
    decreases k,
{
    if k == 0 {
        String::new()
    } else {
        let mut text = last_digits_text(n / 10, k - 1);
        let digit = decimal_text(n % 10);
        text.append(digit.as_str());
        assert(text@ =~= last_digits(n as nat, k as nat));
        text
    }
}

/// Write a rate as a decimal fraction with five places.
pub fn rate_text(rate: u32) -> (text: String)
    ensures
        text@ == shown_rate(rate),
{
    let mut text = decimal_text((rate / RATE_SCALE) as u64);
    text.append(".");
    let places = last_digits_text((rate % RATE_SCALE) as u64 * 10, 5);
    text.append(places.as_str());
    text
}

/// The lines that describe the soil of a cell.
pub fn soil_details(cell: &WireCell) -> (lines: Vec<String>)
    ensures
        texts(lines@) == soil_lines(*cell),
{
    let mut lines: Vec<String> = Vec::new();
    put(&mut lines, numbered("organic: ", cell.organic as u64));
    put(&mut lines, numbered("soil_energy: ", cell.soil_energy as u64));
    put(
        &mut lines,
        line(
            "sunlit: ",
            if cell.sunlit {
                "true"
            } else {
                "false"
            },
        ),
    );
    assert(texts(lines@) =~= soil_lines(*cell));
    lines
}

/// The lines that describe what stands in a cell.
pub fn cell_details(cell: &WireCell) -> (lines: Vec<String>)
    ensures
        texts(lines@) == cell_lines(*cell),
{
    let mut lines: Vec<String> = Vec::new();
    assert(texts(lines@) =~= Seq::<Seq<char>>::empty());
    put(&mut lines, line("occupant: ", occupant_kind_label(&cell.occupant)));
    put_occupant(&mut lines, &cell.occupant);
    let occupied = match &cell.occupant {
        WireOccupant::Empty => false,
        _ => true,
    };
    if occupied {
        let rate = rate_text(cell.lineage_mutation_rate);
        put(&mut lines, line("  mutation rate: ", rate.as_str()));
    }
    assert(texts(lines@) =~= cell_lines(*cell));
    lines
}

/// The lines name the kind of the occupant first; of one that is there they tell the plant,
/// the clan and the energy next and the mutation rate last.
pub proof fn lemma_lines_tell_the_owner(cell: WireCell)
    ensures
        cell_lines(cell)[0] == "occupant: "@ + kind_label(cell.occupant),
        cell.occupant is Empty ==> cell_lines(cell).len() == 1,
        told_owner(cell.occupant) matches Some((plant, clan, energy)) ==> {
            let lines = cell_lines(cell);
            &&& lines.len() > 5
            &&& lines[1] == "  plant: "@ + decimal(plant as nat)
            &&& lines[2] == "  clan: "@ + decimal(clan as nat)
            &&& lines[3] == "  energy: "@ + decimal(energy as nat)
            &&& lines[lines.len() - 1] == "  mutation rate: "@ + shown_rate(
                cell.lineage_mutation_rate,
            )
        },
{
}

/// The lines tell what an occupant of each kind has besides: where it faces and where its
/// parent stands, the links of a stem and the gene that a sprout is at.
pub proof fn lemma_lines_tell_the_rest(cell: WireCell)
    ensures
        ({
            let lines = cell_lines(cell);
            match cell.occupant {
                WireOccupant::Empty => true,
                WireOccupant::Leaf { facing, parent, .. } => lines.len() == 7 && lines[4]
                    == "  facing: "@ + dir_name(facing) && lines[5] == "  parent: "@ + parent_text(
                    parent,
                ),
                WireOccupant::Seed { facing, parent, .. } => lines.len() == 7 && lines[4]
                    == "  facing: "@ + dir_name(facing) && lines[5] == "  parent: "@ + parent_text(
                    parent,
                ),
                WireOccupant::Root { parent, .. } => lines.len() == 6 && lines[4] == "  parent: "@
                    + parent_text(parent),
                WireOccupant::Antenna { parent, .. } => lines.len() == 6 && lines[4]
                    == "  parent: "@ + parent_text(parent),
                WireOccupant::Stem { connections, parent, children, .. } => lines.len() == 8 && lines[4]
                    == "  parent: "@ + parent_text(parent) && lines[5] == "  children: "@
                    + connections_text(children) && lines[6] == "  connections: "@
                    + connections_text(connections),
                WireOccupant::Sprout { facing, parent, current_gene, .. } => lines.len() == 8
                    && lines[4] == "  facing: "@ + dir_name(facing) && lines[5] == "  parent: "@
                    + parent_text(parent) && lines[6] == "  current_gene: "@ + decimal(
                    current_gene as nat,
                ),
            }
        }),
{
}

/// The digits behind the point of a rate are its hundred-thousandths.
pub proof fn lemma_shown_rate_reads_back(rate: u32)
    ensures
        ({
            let shown = shown_rate(rate);
            let n = shown.len() - 5;
            &&& shown.take(n - 1) == decimal((rate / 10000) as nat)
            &&& shown[n - 1] == '.'
            &&& digits_value(shown.skip(n), 10) == Some((rate % 10000) * 10)
        }),
{
    let n = ((rate % 10000) * 10) as nat;
    reveal_strlit(".");
    reveal_with_fuel(ten_to, 6);
    lemma_last_digits(n, 5);
    let shown = shown_rate(rate);
    let k = shown.len() - 5;
    assert(shown.take(k - 1) =~= decimal((rate / 10000) as nat));
    assert(shown.skip(k) =~= last_digits(n, 5));
}

spec fn ten_to(k: nat) -> nat
    decreases k,
{
    if k == 0 {
        1
    } else {
        10 * ten_to((k - 1) as nat)
    }
}

proof fn lemma_last_digits(n: nat, k: nat)
    requires
        n < ten_to(k),
    ensures
        last_digits(n, k).len() == k,
        digits_value(last_digits(n, k), 10) == Some(n as int),
    decreases k,
{
    if k > 0 {
        lemma_last_digits(n / 10, (k - 1) as nat);
        lemma_digit_char((n % 10) as int, 10);
        assert(last_digits(n, k).drop_last() =~= last_digits(n / 10, (k - 1) as nat));
    }
}

} // verus!
