//! Labels and choice lists of the New Solid dialog (Solids step).
use vstd::prelude::*;

use crate::text::owned;

verus! {

/// What kind of volume a solid is.
#[derive(Clone, Copy, Debug, PartialEq, Eq)]
pub enum SolidKind {
    Pit,
    Dump,
    Stockpile,
}

/// Identity of a triangulated surface in a project.
#[derive(Clone, Copy, Debug, PartialEq, Eq, Hash, Structural)]
pub struct TriangulationId(pub u64);

/// Identity of a block model in a project.
#[derive(Clone, Copy, Debug, PartialEq, Eq, Hash, Structural)]
pub struct BlockModelId(pub u64);

/// A triangulation as the dialog lists it.
#[derive(Clone, Debug)]
pub struct TriangulationEntry {
    pub id: TriangulationId,
    pub name: String,
}

/// A block model as the dialog lists it.
#[derive(Clone, Debug)]
pub struct BlockModelEntry {
    pub id: BlockModelId,
    pub name: String,
}

/// What the dialogs read of a project: its surfaces and block models.
#[derive(Clone, Debug)]
pub struct UiProjectView {
    pub triangulations: Vec<TriangulationEntry>,
    pub block_models: Vec<BlockModelEntry>,
}

/// The name shown for a solid kind.
pub fn kind_label(kind: SolidKind) -> (r: String)
    ensures
        r@ == (match kind {
            SolidKind::Pit => "Pit"@,
            SolidKind::Dump => "Dump"@,
            SolidKind::Stockpile => "Stockpile"@,
        }),
{
    match kind {
        SolidKind::Pit => owned("Pit"),
        SolidKind::Dump => owned("Dump"),
        SolidKind::Stockpile => owned("Stockpile"),
    }
}

/// Name of the first surface in `entries` with identity `id`.
pub open spec fn triangulation_name(entries: Seq<TriangulationEntry>, id: TriangulationId) -> Option<Seq<char>>
    decreases entries.len(),
{
    if entries.len() == 0 {
        None
    } else if entries[0].id == id {
        Some(entries[0].name@)
    } else {
        triangulation_name(entries.drop_first(), id)
    }
}

/// Name of the first block model in `entries` with identity `id`.
pub open spec fn block_model_name(entries: Seq<BlockModelEntry>, id: BlockModelId) -> Option<Seq<char>>
    decreases entries.len(),
{
    if entries.len() == 0 {
        None
    } else if entries[0].id == id {
        Some(entries[0].name@)
    } else {
        block_model_name(entries.drop_first(), id)
    }
}

/// Label for a triangulation reference: the surface's name, or a placeholder
/// when it is unset or the surface it named is no longer in the project.
pub fn triangulation_label(project: &UiProjectView, id: Option<TriangulationId>) -> (r: String)
    ensures
        r@ == (match id {
            None => "None"@,
            Some(id) => match triangulation_name(project.triangulations@, id) {
                Some(name) => name,
                None => "Missing surface"@,
            },
        }),
{
    match id {
        None => owned("None"),
        Some(wanted) => {
            let entries = &project.triangulations;
            let mut i: usize = 0;
            proof {
                assert(entries@.skip(0) =~= entries@);
            }
            while i < entries.len()
                invariant
                    i <= entries.len(),
                    entries@ == project.triangulations@,
                    id == Some(wanted),
                    triangulation_name(entries@, wanted) == triangulation_name(entries@.skip(i as int), wanted),
                decreases entries.len() - i,
            {
                proof {
                    assert(entries@.skip(i as int).drop_first() =~= entries@.skip(i + 1));
                    assert(entries@.skip(i as int)[0] == entries@[i as int]);
                }
                if entries[i].id == wanted {
                    let name = entries[i].name.clone();
                    proof {
                        assert(entries@.skip(i as int)[0].id == wanted);
                    }
                    return name;
                }
                i = i + 1;
            }
            owned("Missing surface")
        },
    }
}

/// Block-model counterpart of [`triangulation_label`].
pub fn block_model_label(project: &UiProjectView, id: Option<BlockModelId>) -> (r: String)
    ensures
        r@ == (match id {
            None => "None"@,
            Some(id) => match block_model_name(project.block_models@, id) {
                Some(name) => name,
                None => "Missing block model"@,
            },
        }),
{
    match id {
        None => owned("None"),
        Some(wanted) => {
            let entries = &project.block_models;
            let mut i: usize = 0;
            proof {
                assert(entries@.skip(0) =~= entries@);
            }
            while i < entries.len()
                invariant
                    i <= entries.len(),
                    entries@ == project.block_models@,
                    id == Some(wanted),
                    block_model_name(entries@, wanted) == block_model_name(entries@.skip(i as int), wanted),
                decreases entries.len() - i,
            {
                proof {
                    assert(entries@.skip(i as int).drop_first() =~= entries@.skip(i + 1));
                    assert(entries@.skip(i as int)[0] == entries@[i as int]);
                }
                if entries[i].id == wanted {
                    let name = entries[i].name.clone();
                    proof {
                        assert(entries@.skip(i as int)[0].id == wanted);                    }
                    return name;
                }
                i = i + 1;
            }
            owned("Missing block model")
        },
    }
}

/// Every triangulation in the project, offered after an explicit "None".
pub fn triangulation_options(project: &UiProjectView) -> (r: Vec<(Option<TriangulationId>, String)>)
    ensures
        r@.map_values(|o: (Option<TriangulationId>, String)| (o.0, o.1@)) == seq![(None::<TriangulationId>, "None"@)]
            + project.triangulations@.map_values(|e: TriangulationEntry| (Some(e.id), e.name@)),
{
    let mut r: Vec<(Option<TriangulationId>, String)> = Vec::new();
    r.push((None, owned("None")));
    let mut i: usize = 0;
    proof {
        assert(r@.map_values(|o: (Option<TriangulationId>, String)| (o.0, o.1@)) =~= seq![(None::<TriangulationId>, "None"@)]
            + project.triangulations@.take(0).map_values(|e: TriangulationEntry| (Some(e.id), e.name@)));
    }
    while i < project.triangulations.len()
        invariant
            i <= project.triangulations.len(),
            r@.map_values(|o: (Option<TriangulationId>, String)| (o.0, o.1@)) == seq![(None::<TriangulationId>, "None"@)]
                + project.triangulations@.take(i as int).map_values(|e: TriangulationEntry| (Some(e.id), e.name@)),
        decreases project.triangulations.len() - i,
    {
        let entry = &project.triangulations[i];
        let name = entry.name.clone();
        let ghost before = r@;
        r.push((Some(entry.id), name));
        proof {
            assert(project.triangulations@.take(i + 1) =~= project.triangulations@.take(i as int).push(*entry));
            assert(r@.map_values(|o: (Option<TriangulationId>, String)| (o.0, o.1@)) =~= before.map_values(
                |o: (Option<TriangulationId>, String)| (o.0, o.1@),
            ).push((Some(entry.id), entry.name@)));
            assert(r@.map_values(|o: (Option<TriangulationId>, String)| (o.0, o.1@)) =~= seq![(None::<TriangulationId>, "None"@)]
                + project.triangulations@.take(i + 1).map_values(|e: TriangulationEntry| (Some(e.id), e.name@)));
        }
        i = i + 1;
    }
    proof {
        assert(project.triangulations@.take(i as int) =~= project.triangulations@);
    }
    r
}

/// Every block model in the project, offered after an explicit "None".
pub fn block_model_options(project: &UiProjectView) -> (r: Vec<(Option<BlockModelId>, String)>)
    ensures
        r@.map_values(|o: (Option<BlockModelId>, String)| (o.0, o.1@)) == seq![(None::<BlockModelId>, "None"@)]
            + project.block_models@.map_values(|e: BlockModelEntry| (Some(e.id), e.name@)),
{
    let mut r: Vec<(Option<BlockModelId>, String)> = Vec::new();
    r.push((None, owned("None")));
    let mut i: usize = 0;
    proof {
        assert(r@.map_values(|o: (Option<BlockModelId>, String)| (o.0, o.1@)) =~= seq![(None::<BlockModelId>, "None"@)]
            + project.block_models@.take(0).map_values(|e: BlockModelEntry| (Some(e.id), e.name@)));
    }
    while i < project.block_models.len()
        invariant
            i <= project.block_models.len(),
            r@.map_values(|o: (Option<BlockModelId>, String)| (o.0, o.1@)) == seq![(None::<BlockModelId>, "None"@)]
                + project.block_models@.take(i as int).map_values(|e: BlockModelEntry| (Some(e.id), e.name@)),
        decreases project.block_models.len() - i,
    {
        let entry = &project.block_models[i];
        let name = entry.name.clone();
        let ghost before = r@;
        r.push((Some(entry.id), name));
        proof {
            assert(project.block_models@.take(i + 1) =~= project.block_models@.take(i as int).push(*entry));
            assert(r@.map_values(|o: (Option<BlockModelId>, String)| (o.0, o.1@)) =~= before.map_values(
                |o: (Option<BlockModelId>, String)| (o.0, o.1@),
            ).push((Some(entry.id), entry.name@)));
            assert(r@.map_values(|o: (Option<BlockModelId>, String)| (o.0, o.1@)) =~= seq![(None::<BlockModelId>, "None"@)]
                + project.block_models@.take(i + 1).map_values(|e: BlockModelEntry| (Some(e.id), e.name@)));
        }
        i = i + 1;
    }
    proof {
        assert(project.block_models@.take(i as int) =~= project.block_models@);
    }
    r
}

} // verus!
