//! Labels of the New Field dialog (Reserves Field List).
use vstd::prelude::*;

use crate::text::owned;

verus! {

/// How a reserve field aggregates: summed, averaged weighted by another
/// field, or a category label that is not aggregated.
#[derive(Clone, Copy, Debug, PartialEq, Eq)]
pub enum ReserveFieldKind {
    Sum,
    WeightedAverage,
    Category,
}

/// The name shown for a field kind.
pub fn kind_label(kind: ReserveFieldKind) -> (r: String)
    ensures
        r@ == (match kind {
            ReserveFieldKind::Sum => "Sum"@,
            ReserveFieldKind::WeightedAverage => "Weighted average"@,
            ReserveFieldKind::Category => "Category"@,
        }),
{
    match kind {
        ReserveFieldKind::Sum => owned("Sum"),
        ReserveFieldKind::WeightedAverage => owned("Weighted average"),
        ReserveFieldKind::Category => owned("Category"),
    }
}

} // verus!
