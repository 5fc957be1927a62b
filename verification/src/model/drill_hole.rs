//! Drill-hole sources, colour presets, and the categories of a field.
use vstd::prelude::*;

use crate::model::pidb::{is_portable_path, is_substring, portable_file_name, project_name};
use crate::natural_sort::{lemma_after_total, natural_after};
use crate::sorting::natural_sort_order;
use crate::text::{is_blank, is_blank_str, owned, str_equals};

verus! {

/// Where a drill-hole dataset came from.
#[derive(Clone, Debug, PartialEq, Eq)]
pub enum DrillHoleSource {
    /// Kept only so that older sessions still read; never opened.
    LegacyDhd { path: String },
    Csv { name: String, browser_path: Option<String> },
    /// Decoded from an Open Mining Format container.
    Omf { name: String, path: String },
}

impl DrillHoleSource {
    /// The name shown for the source: the dataset's name, or for a legacy
    /// source the file name of its path.
    pub fn display_name(&self) -> (r: String)
        ensures
            match self {
                DrillHoleSource::LegacyDhd { path } => {
                    &&& (r@ == "unsupported drillhole source"@ || (r@.len() > 0 && is_substring(r@, path@)))
                    &&& is_portable_path(path@) ==> r@ == match portable_file_name(path@) {
                        Some(name) => name,
                        None => "unsupported drillhole source"@,
                    }
                },
                DrillHoleSource::Csv { name, .. } => r@ == name@,
                DrillHoleSource::Omf { name, .. } => r@ == name@,
            },
    {
        match self {
            DrillHoleSource::LegacyDhd { path } => project_name(Some(path.as_str()), "unsupported drillhole source"),
            DrillHoleSource::Csv { name, .. } => name.clone(),
            DrillHoleSource::Omf { name, .. } => name.clone(),
        }
    }
}

/// Colour ramps offered for numeric drill-hole fields.
#[derive(Clone, Copy, Debug, PartialEq, Eq)]
pub enum DrillColorPreset {
    Rainbow,
    Grayscale,
    Heat,
    GreenYellowRed,
}

impl DrillColorPreset {
    /// The name shown for the preset.
    pub fn label(self) -> (r: &'static str)
        ensures
            r@ == (match self {
                DrillColorPreset::Rainbow => "Rainbow"@,
                DrillColorPreset::Grayscale => "Grayscale"@,
                DrillColorPreset::Heat => "Heat"@,
                DrillColorPreset::GreenYellowRed => "Green–Yellow–Red"@,
            }),
    {
        match self {
            DrillColorPreset::Rainbow => "Rainbow",
            DrillColorPreset::Grayscale => "Grayscale",
            DrillColorPreset::Heat => "Heat",
            DrillColorPreset::GreenYellowRed => "Green–Yellow–Red",
        }
    }

    /// Whether the ramp blends between its stops (every preset but the
    /// banded green–yellow–red one).
    pub fn smooth(self) -> (r: bool)
        ensures
            r == (self != DrillColorPreset::GreenYellowRed),
    {
        match self {
            DrillColorPreset::Rainbow | DrillColorPreset::Grayscale | DrillColorPreset::Heat => true,
            DrillColorPreset::GreenYellowRed => false,
        }
    }
}

/// Most categories a drill-hole field keeps, one colour stop each.
pub const MAX_DRILL_COLOR_STOPS: usize = 12;

/// The strings of `v`, as sequences.
pub open spec fn string_views(v: Seq<String>) -> Seq<Seq<char>> {
    v.map_values(|s: String| s@)
}

/// The values of `values` that are not blank, each once, in order of first
/// appearance.
pub open spec fn distinct_categories(values: Seq<Seq<char>>) -> Seq<Seq<char>>
    decreases values.len(),
{
    if values.len() == 0 {
        Seq::empty()
    } else {
        let seen = distinct_categories(values.drop_last());
        let value = values.last();
        if is_blank(value) || seen.contains(value) {
            seen
        } else {
            seen.push(value)
        }
    }
}

/// The categories of a field are exactly its non-blank values, each listed
/// once: a value is a category when it occurs and is not blank, and values
/// that differ in any character, letter case included, are different
/// categories.
pub proof fn law_categories_are_the_non_blank_values(values: Seq<Seq<char>>)
    ensures
        distinct_categories(values).no_duplicates(),
        forall|x: Seq<char>| #[trigger] distinct_categories(values).contains(x) <==> values.contains(x) && !is_blank(x),
    decreases values.len(),
{
    if values.len() > 0 {
        let init = values.drop_last();
        law_categories_are_the_non_blank_values(init);
        let seen = distinct_categories(init);
        let value = values.last();
        assert(values =~= init.push(value));
        assert forall|x: Seq<char>| values.contains(x) <==> init.contains(x) || x == value by {
            if values.contains(x) {
                let k = choose|k: int| 0 <= k < values.len() && values[k] == x;
                if k < init.len() {
                    assert(init[k] == x);
                }
            }
            if init.contains(x) {
                let k = choose|k: int| 0 <= k < init.len() && init[k] == x;
                assert(values[k] == x);
            }
            if x == value {
                assert(values[values.len() - 1] == x);
            }
        }
        if !(is_blank(value) || seen.contains(value)) {
            let d = seen.push(value);
            assert forall|x: Seq<char>| d.contains(x) <==> seen.contains(x) || x == value by {
                if d.contains(x) {
                    let k = choose|k: int| 0 <= k < d.len() && d[k] == x;
                    if k < seen.len() {
                        assert(seen[k] == x);
                    }
                }
                if seen.contains(x) {
                    let k = choose|k: int| 0 <= k < seen.len() && seen[k] == x;
                    assert(d[k] == x);
                }
                if x == value {
                    assert(d[d.len() - 1] == x);
                }
            }
            assert forall|a: int, b: int| 0 <= a < d.len() && 0 <= b < d.len() && a != b implies d[a] != d[b] by {
                if a == seen.len() {
                    assert(seen.contains(d[b]));
                } else if b == seen.len() {
                    assert(seen.contains(d[a]));
                }
            }
        }
    }
}

/// The smaller of `a` and `b`.
pub open spec fn min_nat(a: nat, b: nat) -> nat {
    if a <= b {
        a
    } else {
        b
    }
}

/// The categories of a field, given every category value recorded for it:
/// its distinct non-blank values in natural order, the first
/// [`MAX_DRILL_COLOR_STOPS`] of them.
pub fn category_list(values: &[String]) -> (categories: Vec<String>)
    ensures
        categories.len() == min_nat(MAX_DRILL_COLOR_STOPS as nat, distinct_categories(string_views(values@)).len()),
        forall|i: int, j: int|
            0 <= i < j < categories.len() ==> natural_after(#[trigger] categories@[j]@, #[trigger] categories@[i]@),
        forall|i: int|
            0 <= i < categories.len() ==> distinct_categories(string_views(values@)).contains(#[trigger] categories@[i]@),
        forall|x: Seq<char>, i: int|
            distinct_categories(string_views(values@)).contains(x) && !string_views(categories@).contains(x) && 0 <= i
                < categories.len() ==> #[trigger] natural_after(x, categories@[i]@),
        distinct_categories(string_views(values@)).len() <= MAX_DRILL_COLOR_STOPS ==> forall|x: Seq<char>|
            #[trigger] string_views(values@).contains(x) && !is_blank(x) ==> string_views(categories@).contains(x),
{
    let ghost views = string_views(values@);
    let mut distinct: Vec<String> = Vec::new();
    let mut i: usize = 0;
    while i < values.len()
        invariant
            i <= values.len(),
            views == string_views(values@),
            string_views(distinct@) == distinct_categories(views.take(i as int)),
            string_views(distinct@).no_duplicates(),
        decreases values.len() - i,
    {
        let value = values[i].as_str();
        proof {
            assert(views.take(i + 1).drop_last() =~= views.take(i as int));
            assert(views.take(i + 1).last() == value@);
        }
        let ghost seen = string_views(distinct@);
        if !is_blank_str(value) && !contains_string(&distinct, value) {
            distinct.push(owned(value));
            proof {
                assert(string_views(distinct@) =~= seen.push(value@));
                assert forall|a: int, b: int|
                    0 <= a < b < string_views(distinct@).len() implies string_views(distinct@)[a] != string_views(
                        distinct@,
                    )[b] by {
                    if b == seen.len() {
                        assert(seen.contains(seen[a]));
                    }
                }
            }
        }
        i = i + 1;
    }
    proof {
        assert(views.take(values.len() as int) =~= views);
    }
    let ghost d = string_views(distinct@);
    let order = natural_sort_order(&distinct);
    let n = distinct.len();
    let cut = if n < MAX_DRILL_COLOR_STOPS {
        n
    } else {
        MAX_DRILL_COLOR_STOPS
    };
    let mut categories: Vec<String> = Vec::new();
    let mut k: usize = 0;
    while k < cut
        invariant
            k <= cut,
            cut <= n,
            n == distinct.len(),
            d == string_views(distinct@),
            order@.len() == n,
            forall|j: int| 0 <= j < n ==> #[trigger] order@[j] < n,
            categories.len() == k,
            forall|j: int| 0 <= j < k ==> #[trigger] categories@[j]@ == distinct@[order@[j] as int]@,
        decreases cut - k,
    {
        categories.push(owned(distinct[order[k]].as_str()));
        k = k + 1;
    }
    proof {
        assert forall|a: int, b: int| 0 <= a < b < categories.len() implies natural_after(
            #[trigger] categories@[b]@,
            #[trigger] categories@[a]@,
        ) by {
            let (oa, ob) = (order@[a] as int, order@[b] as int);
            assert(!natural_after(distinct@[oa]@, distinct@[ob]@));
            assert(oa != ob);
            assert(d[oa] != d[ob]);
            lemma_after_total(distinct@[oa]@, distinct@[ob]@);
        }
        assert forall|a: int| 0 <= a < categories.len() implies d.contains(#[trigger] categories@[a]@) by {
            assert(d[order@[a] as int] == categories@[a]@);
        }
        assert forall|x: Seq<char>, a: int|
            d.contains(x) && !string_views(categories@).contains(x) && 0 <= a < categories.len() implies #[trigger] natural_after(
            x,
            categories@[a]@,
        ) by {
            let m = choose|m: int| 0 <= m < d.len() && d[m] == x;
            assert(order@.contains(m as usize));
            let p = choose|p: int| 0 <= p < order@.len() && order@[p] == m as usize;
            if p < cut {
                assert(string_views(categories@)[p] == x);
            }
            let oa = order@[a] as int;
            assert(p != a);
            assert(order@[a] != order@[p]);
            assert(d.no_duplicates());
            assert(d[oa] != d[m]);
            if a < p {
                assert(!natural_after(distinct@[oa]@, distinct@[m]@));
            }
            lemma_after_total(distinct@[oa]@, distinct@[m]@);
        }
        law_categories_are_the_non_blank_values(views);
        if d.len() <= MAX_DRILL_COLOR_STOPS {
            assert forall|x: Seq<char>| #[trigger] views.contains(x) && !is_blank(x) implies string_views(
                categories@,
            ).contains(x) by {
                assert(d.contains(x));
                let m = choose|m: int| 0 <= m < d.len() && d[m] == x;
                assert(order@.contains(m as usize));
                let p = choose|p: int| 0 <= p < order@.len() && order@[p] == m as usize;
                assert(string_views(categories@)[p] == x);
            }
        }
    }
    categories
}

/// Whether `s` is one of the strings of `v`.
fn contains_string(v: &Vec<String>, s: &str) -> (r: bool)
    ensures
        r == string_views(v@).contains(s@),
{
    let mut i: usize = 0;
    while i < v.len()
        invariant
            i <= v.len(),
            forall|k: int| 0 <= k < i ==> v@[k]@ != s@,
        decreases v.len() - i,
    {
        if str_equals(v[i].as_str(), s) {
            proof {
                assert(string_views(v@)[i as int] == s@);
            }
            return true;
        }
        i = i + 1;
    }
    proof {
        if string_views(v@).contains(s@) {
            let k = choose|k: int| 0 <= k < v@.len() && string_views(v@)[k] == s@;
            assert(v@[k]@ == s@);
        }
    }
    false
}

} // verus!
