//! What the phases ask of a single occupant.
use vstd::prelude::*;
use crate::grid::{bitmask_to_dirs, dir_to_bitmask, has_dir, lemma_mask_dirs, mask_dirs};
use crate::protocol::{
    default_sim_params, Direction, Energy, Occupant, OccupantView, PlantId, SimParams, SlotProduct,
};

verus! {

/// The energy that an occupant stores; empty cells store none.
pub open spec fn energy_of(occ: OccupantView) -> Option<Energy> {
    match occ {
        OccupantView::Empty => None,
        OccupantView::Leaf { energy, .. } => Some(energy),
        OccupantView::Root { energy, .. } => Some(energy),
        OccupantView::Stem { energy, .. } => Some(energy),
        OccupantView::Antenna { energy, .. } => Some(energy),
        OccupantView::Sprout { energy, .. } => Some(energy),
        OccupantView::Seed { energy, .. } => Some(energy),
    }
}

/// The same occupant with another energy.
pub open spec fn with_energy(occ: OccupantView, e: Energy) -> OccupantView {
    match occ {
        OccupantView::Empty => OccupantView::Empty,
        OccupantView::Leaf { plant, clan, energy, facing, parent } => OccupantView::Leaf {
            plant,
            clan,
            energy: e,
            facing,
            parent,
        },
        OccupantView::Root { plant, clan, energy, parent } => OccupantView::Root {
            plant,
            clan,
            energy: e,
            parent,
        },
        OccupantView::Stem { plant, clan, energy, connections, parent, children } => OccupantView::Stem {
            plant,
            clan,
            energy: e,
            connections,
            parent,
            children,
        },
        OccupantView::Antenna { plant, clan, energy, parent } => OccupantView::Antenna {
            plant,
            clan,
            energy: e,
            parent,
        },
        OccupantView::Sprout { plant, clan, energy, facing, genome, parent, current_gene } => OccupantView::Sprout {
            plant,
            clan,
            energy: e,
            facing,
            genome,
            parent,
            current_gene,
        },
        OccupantView::Seed { plant, clan, energy, facing, genome, parent } => OccupantView::Seed {
            plant,
            clan,
            energy: e,
            facing,
            genome,
            parent,
        },
    }
}

/// The plant that an occupant belongs to.
pub open spec fn plant_of(occ: OccupantView) -> Option<PlantId> {
    match occ {
        OccupantView::Empty => None,
        OccupantView::Leaf { plant, .. } => Some(plant),
        OccupantView::Root { plant, .. } => Some(plant),
        OccupantView::Stem { plant, .. } => Some(plant),
        OccupantView::Antenna { plant, .. } => Some(plant),
        OccupantView::Sprout { plant, .. } => Some(plant),
        OccupantView::Seed { plant, .. } => Some(plant),
    }
}

/// The direction in which an occupant's parent lies.
pub open spec fn parent_of(occ: OccupantView) -> Option<Direction> {
    match occ {
        OccupantView::Empty => None,
        OccupantView::Leaf { parent, .. } => parent,
        OccupantView::Root { parent, .. } => parent,
        OccupantView::Stem { parent, .. } => parent,
        OccupantView::Antenna { parent, .. } => parent,
        OccupantView::Sprout { parent, .. } => parent,
        OccupantView::Seed { parent, .. } => parent,
    }
}

/// The same occupant without a parent.
pub open spec fn orphaned(occ: OccupantView) -> OccupantView {
    match occ {
        OccupantView::Empty => OccupantView::Empty,
        OccupantView::Leaf { plant, clan, energy, facing, parent } => OccupantView::Leaf {
            plant,
            clan,
            energy,
            facing,
            parent: None,
        },
        OccupantView::Root { plant, clan, energy, parent } => OccupantView::Root {
            plant,
            clan,
            energy,
            parent: None,
        },
        OccupantView::Stem { plant, clan, energy, connections, parent, children } => OccupantView::Stem {
            plant,
            clan,
            energy,
            connections,
            parent: None,
            children,
        },
        OccupantView::Antenna { plant, clan, energy, parent } => OccupantView::Antenna {
            plant,
            clan,
            energy,
            parent: None,
        },
        OccupantView::Sprout { plant, clan, energy, facing, genome, parent, current_gene } => OccupantView::Sprout {
            plant,
            clan,
            energy,
            facing,
            genome,
            parent: None,
            current_gene,
        },
        OccupantView::Seed { plant, clan, energy, facing, genome, parent } => OccupantView::Seed {
            plant,
            clan,
            energy,
            facing,
            genome,
            parent: None,
        },
    }
}

/// Leaves, roots and antennae: cells that feed their parent.
pub open spec fn is_producer(occ: OccupantView) -> bool {
    occ is Leaf || occ is Root || occ is Antenna
}

/// What an occupant pays each tick, and keeps back when it pushes energy on.
pub open spec fn upkeep_of(params: SimParams, occ: OccupantView) -> Energy {
    match occ {
        OccupantView::Empty => 0,
        OccupantView::Seed { .. } => params.upkeep_seed,
        OccupantView::Sprout { .. } => params.upkeep_sprout,
        _ => params.upkeep_default,
    }
}

/// What growing a slot costs.
pub open spec fn cost_of(params: SimParams, slot: SlotProduct) -> Energy {
    match slot {
        SlotProduct::Nothing => 0,
        SlotProduct::Leaf => params.cost_leaf,
        SlotProduct::Root => params.cost_root,
        SlotProduct::Antenna => params.cost_antenna,
        SlotProduct::Seed => params.cost_seed,
        SlotProduct::Sprout => params.cost_sprout,
    }
}

/// Where an occupant pushes its surplus: producers to their parent, stems to
/// their children. Sprouts and seeds only accumulate.
pub open spec fn targets_of(occ: OccupantView) -> Seq<Direction> {
    match occ {
        OccupantView::Stem { children, .. } => mask_dirs(children, 4),
        _ => if is_producer(occ) && parent_of(occ) is Some {
            seq![parent_of(occ)->0]
        } else {
            Seq::empty()
        },
    }
}

/// Whether the soil is fatal for an occupant. Roots tolerate organic, antennae
/// tolerate soil energy, everything else dies of either.
pub open spec fn poisoned_by(
    params: SimParams,
    occ: OccupantView,
    organic: u16,
    soil_energy: u16,
) -> bool {
    let organic_toxic = organic > params.soil_organic_poison;
    let energy_toxic = soil_energy > params.soil_energy_poison;
    match occ {
        OccupantView::Empty => false,
        OccupantView::Root { .. } => energy_toxic,
        OccupantView::Antenna { .. } => organic_toxic,
        _ => organic_toxic || energy_toxic,
    }
}

/// A neighbour towards which a stem of `plant` stays visibly connected.
pub open spec fn kin_or_empty(occ: OccupantView, plant: PlantId) -> bool {
    occ is Empty || plant_of(occ) == Some(plant)
}

/// A neighbour that a stem of `plant` may keep as a child.
pub open spec fn kin_descendable(occ: OccupantView, plant: PlantId) -> bool {
    (occ is Sprout || occ is Seed || occ is Stem) && plant_of(occ) == Some(plant)
}

/// A neighbour that a stem of `plant` may keep as its parent.
pub open spec fn kin_alive(occ: OccupantView, plant: PlantId) -> bool {
    plant_of(occ) == Some(plant)
}

/// Outcome of inspecting a growth target.
#[derive(Clone, Copy, Debug, PartialEq, Eq, Structural)]
pub enum EdibleStatus {
    /// The cell is empty: grow normally, nothing is harvested.
    Empty,
    /// A foreign leaf, antenna, sprout or seed with this energy. Only sprout and
    /// seed slots may consume it.
    Edible(Energy),
    /// A root, a stem or a cell of the same plant: nothing can grow here.
    Blocked,
}

/// What a sprout of plant `eater` sees in a neighbour.
pub open spec fn edible(occ: OccupantView, eater: PlantId) -> EdibleStatus {
    match occ {
        OccupantView::Empty => EdibleStatus::Empty,
        _ => if plant_of(occ) != Some(eater) && (occ is Leaf || occ is Antenna || occ is Sprout
            || occ is Seed) {
            EdibleStatus::Edible(energy_of(occ)->0)
        } else {
            EdibleStatus::Blocked
        },
    }
}

/// The energy that an occupant stores.
pub fn occupant_energy(occ: &Occupant) -> (energy: Option<Energy>)
    ensures
        energy == energy_of(occ@),
{
    match occ {
        Occupant::Empty => None,
        Occupant::Leaf { energy, .. } => Some(*energy),
        Occupant::Root { energy, .. } => Some(*energy),
        Occupant::Stem { energy, .. } => Some(*energy),
        Occupant::Antenna { energy, .. } => Some(*energy),
        Occupant::Sprout { energy, .. } => Some(*energy),
        Occupant::Seed { energy, .. } => Some(*energy),
    }
}

/// Give an occupant another energy.
pub fn set_occupant_energy(occ: &mut Occupant, new_energy: Energy)
    ensures
        final(occ)@ == with_energy(old(occ)@, new_energy),
{
    match occ {
        Occupant::Empty => {},
        Occupant::Leaf { energy, .. } => {
            *energy = new_energy;
        },
        Occupant::Root { energy, .. } => {
            *energy = new_energy;
        },
        Occupant::Stem { energy, .. } => {
            *energy = new_energy;
        },
        Occupant::Antenna { energy, .. } => {
            *energy = new_energy;
        },
        Occupant::Sprout { energy, .. } => {
            *energy = new_energy;
        },
        Occupant::Seed { energy, .. } => {
            *energy = new_energy;
        },
    }
}

/// The direction in which an occupant's parent lies.
pub fn occupant_parent(occ: &Occupant) -> (parent: Option<Direction>)
    ensures
        parent == parent_of(occ@),
{
    match occ {
        Occupant::Empty => None,
        Occupant::Leaf { parent, .. } => *parent,
        Occupant::Root { parent, .. } => *parent,
        Occupant::Stem { parent, .. } => *parent,
        Occupant::Antenna { parent, .. } => *parent,
        Occupant::Sprout { parent, .. } => *parent,
        Occupant::Seed { parent, .. } => *parent,
    }
}

/// Forget the parent if it lies in direction `dir`.
pub fn clear_parent(occ: &mut Occupant, dir: Direction)
    ensures
        final(occ)@ == (if parent_of(old(occ)@) == Some(dir) {
            orphaned(old(occ)@)
        } else {
            old(occ)@
        }),
{
    match occ {
        Occupant::Empty => {},
        Occupant::Leaf { parent, .. } => {
            if is_dir(*parent, dir) {
                *parent = None;
            }
        },
        Occupant::Root { parent, .. } => {
            if is_dir(*parent, dir) {
                *parent = None;
            }
        },
        Occupant::Stem { parent, .. } => {
            if is_dir(*parent, dir) {
                *parent = None;
            }
        },
        Occupant::Antenna { parent, .. } => {
            if is_dir(*parent, dir) {
                *parent = None;
            }
        },
        Occupant::Sprout { parent, .. } => {
            if is_dir(*parent, dir) {
                *parent = None;
            }
        },
        Occupant::Seed { parent, .. } => {
            if is_dir(*parent, dir) {
                *parent = None;
            }
        },
    }
}

/// Whether an optional direction is `dir`.
pub fn is_dir(maybe: Option<Direction>, dir: Direction) -> (same: bool)
    ensures
        same == (maybe == Some(dir)),
{
    match maybe {
        Some(d) => d == dir,
        None => false,
    }
}

/// What an occupant pays per tick.
pub fn upkeep_for(params: &SimParams, occ: &Occupant) -> (upkeep: Energy)
    ensures
        upkeep == upkeep_of(*params, occ@),
{
    match occ {
        Occupant::Empty => 0,
        Occupant::Seed { .. } => params.upkeep_seed,
        Occupant::Sprout { .. } => params.upkeep_sprout,
        _ => params.upkeep_default,
    }
}

/// What a slot costs to grow.
pub fn slot_cost(params: &SimParams, slot: SlotProduct) -> (cost: Energy)
    ensures
        cost == cost_of(*params, slot),
{
    match slot {
        SlotProduct::Nothing => 0,
        SlotProduct::Leaf => params.cost_leaf,
        SlotProduct::Root => params.cost_root,
        SlotProduct::Antenna => params.cost_antenna,
        SlotProduct::Seed => params.cost_seed,
        SlotProduct::Sprout => params.cost_sprout,
    }
}

/// Whether an occupant pushes its surplus in a direction.
pub fn pushes_to(occ: &Occupant, dir: Direction) -> (yes: bool)
    ensures
        yes == targets_of(occ@).contains(dir),
{
    proof {
        if let OccupantView::Stem { children, .. } = occ@ {
            lemma_mask_dirs(children, dir);
        } else if is_producer(occ@) && parent_of(occ@) is Some {
            assert(targets_of(occ@)[0] == parent_of(occ@)->0);
        }
    }
    match occ {
        Occupant::Empty => false,
        Occupant::Seed { .. } => false,
        Occupant::Sprout { .. } => false,
        Occupant::Leaf { parent, .. } => is_dir(*parent, dir),
        Occupant::Root { parent, .. } => is_dir(*parent, dir),
        Occupant::Antenna { parent, .. } => is_dir(*parent, dir),
        Occupant::Stem { children, .. } => *children & dir_to_bitmask(dir) != 0,
    }
}

/// The directions into which an occupant pushes its surplus energy.
pub fn push_targets(occ: &Occupant) -> (dirs: Vec<Direction>)
    ensures
        dirs@ == targets_of(occ@),
{
    match occ {
        Occupant::Empty => Vec::new(),
        Occupant::Seed { .. } => Vec::new(),
        Occupant::Sprout { .. } => Vec::new(),
        Occupant::Leaf { parent, .. } => dir_list(*parent),
        Occupant::Root { parent, .. } => dir_list(*parent),
        Occupant::Antenna { parent, .. } => dir_list(*parent),
        Occupant::Stem { children, .. } => bitmask_to_dirs(*children),
    }
}

fn dir_list(maybe: Option<Direction>) -> (dirs: Vec<Direction>)
    ensures
        dirs@ == (match maybe {
            Some(d) => seq![d],
            None => Seq::empty(),
        }),
{
    let mut dirs: Vec<Direction> = Vec::new();
    if let Some(d) = maybe {
        dirs.push(d);
    }
    dirs
}

/// Whether the soil's chemistry is fatal for an occupant.
pub fn is_poisoned(params: &SimParams, occ: &Occupant, organic: u16, soil_energy: u16) -> (fatal: bool)
    ensures
        fatal == poisoned_by(*params, occ@, organic, soil_energy),
{
    let organic_toxic = organic > params.soil_organic_poison;
    let energy_toxic = soil_energy > params.soil_energy_poison;
    match occ {
        Occupant::Empty => false,
        Occupant::Root { .. } => energy_toxic,
        Occupant::Antenna { .. } => organic_toxic,
        _ => organic_toxic || energy_toxic,
    }
}

/// Whether a stem keeps a connection to an occupant.
pub fn is_kin_or_empty(occ: &Occupant, parent_plant: PlantId) -> (keep: bool)
    ensures
        keep == kin_or_empty(occ@, parent_plant),
{
    match occ {
        Occupant::Empty => true,
        Occupant::Leaf { plant, .. } => *plant == parent_plant,
        Occupant::Root { plant, .. } => *plant == parent_plant,
        Occupant::Stem { plant, .. } => *plant == parent_plant,
        Occupant::Antenna { plant, .. } => *plant == parent_plant,
        Occupant::Sprout { plant, .. } => *plant == parent_plant,
        Occupant::Seed { plant, .. } => *plant == parent_plant,
    }
}

/// Whether a stem keeps an occupant as its child.
pub fn is_kin_descendable(occ: &Occupant, parent_plant: PlantId) -> (keep: bool)
    ensures
        keep == kin_descendable(occ@, parent_plant),
{
    match occ {
        Occupant::Sprout { plant, .. } => *plant == parent_plant,
        Occupant::Seed { plant, .. } => *plant == parent_plant,
        Occupant::Stem { plant, .. } => *plant == parent_plant,
        _ => false,
    }
}

/// Whether a stem keeps an occupant as its parent.
pub fn is_kin_alive(occ: &Occupant, parent_plant: PlantId) -> (alive: bool)
    ensures
        alive == kin_alive(occ@, parent_plant),
{
    match occ {
        Occupant::Empty => false,
        _ => is_kin_or_empty(occ, parent_plant),
    }
}

/// What a sprout of plant `eater_plant` may do with a neighbour.
pub fn edible_for(occ: &Occupant, eater_plant: PlantId) -> (status: EdibleStatus)
    ensures
        status == edible(occ@, eater_plant),
{
    match occ {
        Occupant::Empty => EdibleStatus::Empty,
        Occupant::Leaf { plant, energy, .. } => eaten(*plant, eater_plant, *energy),
        Occupant::Antenna { plant, energy, .. } => eaten(*plant, eater_plant, *energy),
        Occupant::Sprout { plant, energy, .. } => eaten(*plant, eater_plant, *energy),
        Occupant::Seed { plant, energy, .. } => eaten(*plant, eater_plant, *energy),
        _ => EdibleStatus::Blocked,
    }
}

fn eaten(plant: PlantId, eater_plant: PlantId, energy: Energy) -> (status: EdibleStatus)
    ensures
        status == (if plant != eater_plant {
            EdibleStatus::Edible(energy)
        } else {
            EdibleStatus::Blocked
        }),
{
    if plant != eater_plant {
        EdibleStatus::Edible(energy)
    } else {
        EdibleStatus::Blocked
    }
}

/// Whether nothing stands in a cell.
pub fn is_empty(occ: &Occupant) -> (empty: bool)
    ensures
        empty == (occ@ is Empty),
{
    match occ {
        Occupant::Empty => true,
        _ => false,
    }
}

/// Roots do not die of organic matter, nor antennae of soil energy; on soil that is
/// toxic both ways nothing survives.
pub proof fn lemma_poison(params: SimParams, occ: OccupantView, organic: u16, soil_energy: u16)
    ensures
        occ is Root && soil_energy <= params.soil_energy_poison ==> !poisoned_by(
            params,
            occ,
            organic,
            soil_energy,
        ),
        occ is Antenna && organic <= params.soil_organic_poison ==> !poisoned_by(
            params,
            occ,
            organic,
            soil_energy,
        ),
        !(occ is Empty) && organic > params.soil_organic_poison && soil_energy
            > params.soil_energy_poison ==> poisoned_by(params, occ, organic, soil_energy),
        organic <= params.soil_organic_poison && soil_energy <= params.soil_energy_poison
            ==> !poisoned_by(params, occ, organic, soil_energy),
{
}

/// With the default scalars, above 300 organic only roots survive and above 200 soil
/// energy only antennae; neither bound itself kills.
pub proof fn lemma_default_poison(occ: OccupantView, organic: u16, soil_energy: u16)
    ensures
        poisoned_by(default_sim_params(), occ, organic, soil_energy) == (!(occ is Empty) && ((organic
            > 300 && !(occ is Root)) || (soil_energy > 200 && !(occ is Antenna)))),
{
}

/// The energy, the plant and the parent of an occupant are its own fields, and nobody has
/// none of them but an empty cell.
pub proof fn lemma_fields_are_read(occ: OccupantView)
    ensures
        match occ {
            OccupantView::Empty => energy_of(occ) is None && plant_of(occ) is None && parent_of(
                occ,
            ) is None,
            OccupantView::Leaf { plant, energy, parent, .. } => energy_of(occ) == Some(energy)
                && plant_of(occ) == Some(plant) && parent_of(occ) == parent,
            OccupantView::Root { plant, energy, parent, .. } => energy_of(occ) == Some(energy)
                && plant_of(occ) == Some(plant) && parent_of(occ) == parent,
            OccupantView::Stem { plant, energy, parent, .. } => energy_of(occ) == Some(energy)
                && plant_of(occ) == Some(plant) && parent_of(occ) == parent,
            OccupantView::Antenna { plant, energy, parent, .. } => energy_of(occ) == Some(energy)
                && plant_of(occ) == Some(plant) && parent_of(occ) == parent,
            OccupantView::Sprout { plant, energy, parent, .. } => energy_of(occ) == Some(energy)
                && plant_of(occ) == Some(plant) && parent_of(occ) == parent,
            OccupantView::Seed { plant, energy, parent, .. } => energy_of(occ) == Some(energy)
                && plant_of(occ) == Some(plant) && parent_of(occ) == parent,
        },
{
}

/// Energy that is written is read back, the last write counts, and writing the energy that is
/// there changes nothing; so with a parent that is taken away. Neither touches what the other
/// does, or the plant.
pub proof fn lemma_fields_are_written(occ: OccupantView, a: Energy, b: Energy)
    ensures
        !(occ is Empty) ==> energy_of(with_energy(occ, a)) == Some(a),
        with_energy(with_energy(occ, a), b) == with_energy(occ, b),
        energy_of(occ) == Some(a) ==> with_energy(occ, a) == occ,
        plant_of(with_energy(occ, a)) == plant_of(occ),
        parent_of(with_energy(occ, a)) == parent_of(occ),
        parent_of(orphaned(occ)) is None,
        parent_of(occ) is None ==> orphaned(occ) == occ,
        energy_of(orphaned(occ)) == energy_of(occ),
        plant_of(orphaned(occ)) == plant_of(occ),
        orphaned(with_energy(occ, a)) == with_energy(orphaned(occ), a),
        occ is Empty ==> with_energy(occ, a) is Empty && orphaned(occ) is Empty,
{
}

/// Stems push to their children, producers to their parent, and nobody else to anyone.
pub proof fn lemma_who_pushes_where(occ: OccupantView, d: Direction)
    ensures
        targets_of(occ).contains(d) == match occ {
            OccupantView::Stem { children, .. } => has_dir(children, d),
            OccupantView::Leaf { parent, .. } => parent == Some(d),
            OccupantView::Root { parent, .. } => parent == Some(d),
            OccupantView::Antenna { parent, .. } => parent == Some(d),
            _ => false,
        },
{
    match occ {
        OccupantView::Stem { children, .. } => {
            lemma_mask_dirs(children, d);
        },
        _ => {
            if is_producer(occ) && parent_of(occ) is Some {
                let up = parent_of(occ)->0;
                assert(seq![up][0] == up);
                assert(seq![up].contains(d) == (up == d));
            } else {
                assert(!Seq::<Direction>::empty().contains(d));
            }
        },
    }
}

/// A sprout may eat what is of another plant and neither a root nor a stem, and gets its
/// energy; nothing stops it where nothing stands, and anything else does.
pub proof fn lemma_what_is_edible(occ: OccupantView, eater: PlantId)
    ensures
        match occ {
            OccupantView::Empty => edible(occ, eater) is Empty,
            OccupantView::Root { .. } => edible(occ, eater) is Blocked,
            OccupantView::Stem { .. } => edible(occ, eater) is Blocked,
            OccupantView::Leaf { plant, energy, .. } => edible(occ, eater) == (if plant == eater {
                EdibleStatus::Blocked
            } else {
                EdibleStatus::Edible(energy)
            }),
            OccupantView::Antenna { plant, energy, .. } => edible(occ, eater) == (if plant
                == eater {
                EdibleStatus::Blocked
            } else {
                EdibleStatus::Edible(energy)
            }),
            OccupantView::Sprout { plant, energy, .. } => edible(occ, eater) == (if plant == eater {
                EdibleStatus::Blocked
            } else {
                EdibleStatus::Edible(energy)
            }),
            OccupantView::Seed { plant, energy, .. } => edible(occ, eater) == (if plant == eater {
                EdibleStatus::Blocked
            } else {
                EdibleStatus::Edible(energy)
            }),
        },
{
}

} // verus!
