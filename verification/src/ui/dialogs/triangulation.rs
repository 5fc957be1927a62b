//! Labels and estimates of the triangulation dialogs.
use vstd::prelude::*;

use crate::text::{owned, push_str};

verus! {

/// Whether a new triangulation is an open surface or a closed solid.
#[derive(Clone, Copy, Debug, PartialEq, Eq)]
pub enum TriSurfaceType {
    Surface,
    SolidClosed,
}

/// How a terrain TIN picks its vertices.
#[derive(Clone, Copy, Debug, PartialEq, Eq)]
pub enum TerrainSampler {
    Grid,
    Adaptive,
}

/// The name shown for a surface type.
pub fn tri_surface_type_label(surface_type: TriSurfaceType) -> (r: &'static str)
    ensures
        r@ == (match surface_type {
            TriSurfaceType::Surface => "Open surface"@,
            TriSurfaceType::SolidClosed => "Solid – fully closed"@,
        }),
{
    match surface_type {
        TriSurfaceType::Surface => "Open surface",
        TriSurfaceType::SolidClosed => "Solid – fully closed",
    }
}

/// `min(x, u64::MAX)`.
pub open spec fn saturate(x: int) -> int {
    if x > u64::MAX {
        u64::MAX as int
    } else {
        x
    }
}

/// Candidate cells and bytes per cell of a terrain TIN build.
pub open spec fn tin_cells(target: int, sampler: TerrainSampler, candidate_multiplier: int) -> (int, int) {
    match sampler {
        TerrainSampler::Grid => (target, 100),
        TerrainSampler::Adaptive => (
            target * if candidate_multiplier < 1 {
                1
            } else {
                candidate_multiplier
            },
            340,
        ),
    }
}

/// Rough transient peak memory of a terrain TIN build: each candidate cell
/// at its per-cell cost plus 48 bytes per target vertex, each product
/// saturating at `u64::MAX`.
pub open spec fn tin_memory_bytes(target: int, sampler: TerrainSampler, candidate_multiplier: int) -> int {
    let (cells, per_cell) = tin_cells(target, sampler, candidate_multiplier);
    saturate(cells * per_cell) + saturate(target * 48)
}

/// Rough transient peak memory (bytes) for a terrain TIN build, dominated by the
/// candidate grid and, for the adaptive sampler, the quadtree over it. Deliberately
/// conservative so the dialog can warn before a configuration risks the process.
pub fn estimate_tin_memory_bytes(target_vertices: usize, sampler: TerrainSampler, candidate_multiplier: u32) -> (bytes: u64)
    requires
        tin_cells(target_vertices as int, sampler, candidate_multiplier as int).0 <= u64::MAX,
        tin_memory_bytes(target_vertices as int, sampler, candidate_multiplier as int) <= u64::MAX,
    ensures
        bytes == tin_memory_bytes(target_vertices as int, sampler, candidate_multiplier as int),
{
    let target = target_vertices as u64;
    let (candidate_cells, bytes_per_cell) = match sampler {
        TerrainSampler::Grid => (target, 100u64),
        TerrainSampler::Adaptive => {
            let multiplier: u64 = if candidate_multiplier < 1 {
                1
            } else {
                candidate_multiplier as u64
            };
            (target * multiplier, 340u64)
        },
    };
    saturating_mul(candidate_cells, bytes_per_cell) + saturating_mul(target, 48)
}

/// `x * y`, or `u64::MAX` when the product does not fit (the behaviour of
/// `u64::saturating_mul`).
fn saturating_mul(x: u64, y: u64) -> (r: u64)
    ensures
        r == saturate(x * y),
{
    match x.checked_mul(y) {
        Some(p) => p,
        None => u64::MAX,
    }
}

/// Identity of a layer of a design document.
#[derive(Clone, Copy, Debug, PartialEq, Eq, Hash, Structural)]
pub struct LayerId(pub u64);

/// A layer as labels read it.
#[derive(Clone, Debug)]
pub struct Layer {
    pub id: LayerId,
    pub name: String,
}

/// A design object as labels read it: its kind, its layer, and a text
/// object's content.
#[derive(Clone, Debug)]
pub enum Object {
    Point { layer: LayerId },
    Polyline { layer: LayerId, closed: bool },
    Text { layer: LayerId, content: String },
}

impl Object {
    pub open spec fn layer_of(&self) -> LayerId {
        match self {
            Object::Point { layer } => *layer,
            Object::Polyline { layer, .. } => *layer,
            Object::Text { layer, .. } => *layer,
        }
    }

    /// The layer the object is on.
    pub fn layer(&self) -> (r: LayerId)
        ensures
            r == self.layer_of(),
    {
        match self {
            Object::Point { layer } => *layer,
            Object::Polyline { layer, .. } => *layer,
            Object::Text { layer, .. } => *layer,
        }
    }
}

/// Name of the first layer in `layers` with identity `id`.
pub open spec fn layer_name(layers: Seq<Layer>, id: LayerId) -> Option<Seq<char>>
    decreases layers.len(),
{
    if layers.len() == 0 {
        None
    } else if layers[0].id == id {
        Some(layers[0].name@)
    } else {
        layer_name(layers.drop_first(), id)
    }
}

/// The label of an object: its kind and the name of its layer (`?` when
/// the layer is not in the document).
pub open spec fn object_label_text(obj: Object, layers: Seq<Layer>) -> Seq<char> {
    let layer = match layer_name(layers, obj.layer_of()) {
        Some(name) => name,
        None => "?"@,
    };
    match obj {
        Object::Point { .. } => "Point on '"@ + layer + "'"@,
        Object::Polyline { closed, .. } => if closed {
            "Polygon on '"@ + layer + "'"@
        } else {
            "String on '"@ + layer + "'"@
        },
        Object::Text { content, .. } => "Text \""@ + content@ + "\" on '"@ + layer + "'"@,
    }
}

/// Returns a human-readable label for an object (type + layer name).
pub fn object_label(obj: &Object, layers: &[Layer]) -> (r: String)
    ensures
        r@ == object_label_text(*obj, layers@),
{
    let id = obj.layer();
    let mut layer_name_text = owned("?");
    let mut i: usize = 0;
    proof {
        assert(layers@.skip(0) =~= layers@);
    }
    while i < layers.len()
        invariant
            i <= layers.len(),
            id == obj.layer_of(),
            layer_name(layers@, id) == layer_name(layers@.skip(i as int), id),
            layer_name_text@ == "?"@,
        ensures
            i <= layers.len(),
            layer_name(layers@, id) == layer_name(layers@.skip(i as int), id),
            i < layers.len() ==> layers@[i as int].id == id,
            layer_name_text@ == "?"@,
        decreases layers.len() - i,
    {
        proof {
            assert(layers@.skip(i as int).drop_first() =~= layers@.skip(i + 1));
            assert(layers@.skip(i as int)[0] == layers@[i as int]);
        }
        if layers[i].id == id {
            break;
        }
        i = i + 1;
    }
    if i < layers.len() {
        layer_name_text = layers[i].name.clone();
        proof {
            assert(layers@.skip(i as int)[0] == layers@[i as int]);
        }
    }
    let ghost layer = match layer_name(layers@, id) {
        Some(name) => name,
        None => "?"@,
    };
    assert(layer_name_text@ == layer);
    let mut text = String::new();
    match obj {
        Object::Point { .. } => {
            push_str(&mut text, "Point on '");
        },
        Object::Polyline { closed, .. } => {
            if *closed {
                push_str(&mut text, "Polygon on '");
            } else {
                push_str(&mut text, "String on '");
            }
        },
        Object::Text { content, .. } => {
            push_str(&mut text, "Text \"");
            push_str(&mut text, content.as_str());
            push_str(&mut text, "\" on '");
        },
    }
    push_str(&mut text, layer_name_text.as_str());
    push_str(&mut text, "'");
    proof {
        assert(text@ =~= object_label_text(*obj, layers@));
    }
    text
}

} // verus!
