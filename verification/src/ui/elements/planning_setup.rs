//! Reserves setup: the Field List summary and each block model's mapping of
//! the fields onto its own columns.
use vstd::prelude::*;

use crate::text::{owned, push_str};

verus! {

/// Identity of a field of the project's Reserves Field List.
#[derive(Clone, Copy, Debug, PartialEq, Eq, Hash, Structural)]
pub struct ReserveFieldId(pub u64);

/// How a reserve field aggregates over blocks.
#[derive(Clone, Copy, Debug, PartialEq, Eq, Structural)]
pub enum ReserveAggregation {
    Sum,
    WeightedAverage { weight_field: ReserveFieldId },
    Category,
}

/// One field of the Field List.
#[derive(Clone, Debug)]
pub struct ReserveField {
    pub id: ReserveFieldId,
    pub name: String,
    pub aggregation: ReserveAggregation,
}

/// Name of the first field in `fields` with identity `id`.
pub open spec fn reserve_field_name(fields: Seq<ReserveField>, id: ReserveFieldId) -> Option<Seq<char>>
    decreases fields.len(),
{
    if fields.len() == 0 {
        None
    } else if fields[0].id == id {
        Some(fields[0].name@)
    } else {
        reserve_field_name(fields.drop_first(), id)
    }
}

/// The one-line summary of how a field aggregates.
pub open spec fn summary_text(fields: Seq<ReserveField>, aggregation: ReserveAggregation) -> Seq<char> {
    match aggregation {
        ReserveAggregation::Sum => "Sum"@,
        ReserveAggregation::WeightedAverage { weight_field } => "Weighted avg. by "@ + match reserve_field_name(
            fields,
            weight_field,
        ) {
            Some(name) => name,
            None => "?"@,
        },
        ReserveAggregation::Category => "Category"@,
    }
}

/// The name of the field `id` in the project's Field List, if it is there.
fn field_name(fields: &[ReserveField], id: ReserveFieldId) -> (r: Option<String>)
    ensures
        match r {
            Some(name) => reserve_field_name(fields@, id) == Some(name@),
            None => reserve_field_name(fields@, id).is_none(),
        },
{
    let mut i: usize = 0;
    proof {
        assert(fields@.skip(0) =~= fields@);
    }
    while i < fields.len()
        invariant
            i <= fields.len(),
            reserve_field_name(fields@, id) == reserve_field_name(fields@.skip(i as int), id),
        decreases fields.len() - i,
    {
        proof {
            assert(fields@.skip(i as int).drop_first() =~= fields@.skip(i + 1));
            assert(fields@.skip(i as int)[0] == fields@[i as int]);
        }
        if fields[i].id == id {
            return Some(fields[i].name.clone());
        }
        i = i + 1;
    }
    None
}

/// One-line summary of how a field aggregates, for the Field List grid; a
/// weighted average names its weight field (or `?` when that field is gone).
pub fn aggregation_summary(fields: &[ReserveField], aggregation: &ReserveAggregation) -> (r: String)
    ensures
        r@ == summary_text(fields@, *aggregation),
{
    match aggregation {
        ReserveAggregation::Sum => owned("Sum"),
        ReserveAggregation::WeightedAverage { weight_field } => {
            let mut text = owned("Weighted avg. by ");
            match field_name(fields, *weight_field) {
                Some(name) => push_str(&mut text, name.as_str()),
                None => push_str(&mut text, "?"),
            }
            text
        },
        ReserveAggregation::Category => owned("Category"),
    }
}

/// Where a block model takes a field's values from. (A constant's value is
/// held beside the mapping by the caller; choosing among the mappings only
/// needs to know that it is a constant.)
#[derive(Clone, Debug)]
pub enum ReserveMappingSource {
    Constant,
    Column(String),
}

/// One field's mapping in a block model.
#[derive(Clone, Debug)]
pub struct ReserveFieldMapping {
    pub field: ReserveFieldId,
    pub source: ReserveMappingSource,
}

/// Current mapping choice for one field, as the mapping combo's own value
/// type: the field's un/mapped state plus, when mapped, its source.
#[derive(Clone, Debug)]
pub enum MappingChoice {
    Unmapped,
    Constant,
    Column(String),
}

/// The source of the first mapping of `field`.
pub open spec fn mapping_source(mapping: Seq<ReserveFieldMapping>, field: ReserveFieldId) -> Option<ReserveMappingSource>
    decreases mapping.len(),
{
    if mapping.len() == 0 {
        None
    } else if mapping[0].field == field {
        Some(mapping[0].source)
    } else {
        mapping_source(mapping.drop_first(), field)
    }
}

impl MappingChoice {
    /// The choice matching `field`'s mapping in `mapping`.
    pub fn of(mapping: &[ReserveFieldMapping], field: ReserveFieldId) -> (r: Self)
        ensures
            match mapping_source(mapping@, field) {
                None => r is Unmapped,
                Some(ReserveMappingSource::Constant) => r is Constant,
                Some(ReserveMappingSource::Column(name)) => r matches MappingChoice::Column(n) && n@ == name@,
            },
    {
        let mut i: usize = 0;
        proof {
            assert(mapping@.skip(0) =~= mapping@);
        }
        while i < mapping.len()
            invariant
                i <= mapping.len(),
                mapping_source(mapping@, field) == mapping_source(mapping@.skip(i as int), field),
            decreases mapping.len() - i,
        {
            proof {
                assert(mapping@.skip(i as int).drop_first() =~= mapping@.skip(i + 1));
                assert(mapping@.skip(i as int)[0] == mapping@[i as int]);
            }
            if mapping[i].field == field {
                return match &mapping[i].source {
                    ReserveMappingSource::Constant => MappingChoice::Constant,
                    ReserveMappingSource::Column(name) => MappingChoice::Column(name.clone()),
                };
            }
            i = i + 1;
        }
        MappingChoice::Unmapped
    }

    /// The text shown for the choice: the column's own name when mapped to
    /// a column.
    pub fn label(&self) -> (r: String)
        ensures
            r@ == (match self {
                MappingChoice::Unmapped => "Unmapped"@,
                MappingChoice::Constant => "Constant"@,
                MappingChoice::Column(name) => name@,
            }),
    {
        match self {
            MappingChoice::Unmapped => owned("Unmapped"),
            MappingChoice::Constant => owned("Constant"),
            MappingChoice::Column(name) => name.clone(),
        }
    }
}

} // verus!
