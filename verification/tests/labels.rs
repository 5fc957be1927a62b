use minedesign::ui::elements::explorer::{modified_tooltip_step, CachedModifiedTime, TooltipLookup};
use minedesign::model::drill_hole::{DrillColorPreset, DrillHoleSource};
use minedesign::model::pidb::{name_or_fallback, project_name};
use minedesign::ui::dialogs::editing::{fill_style_label, FillStyle};
use minedesign::ui::dialogs::reserve_fields::{self, ReserveFieldKind};
use minedesign::ui::dialogs::solids::{
    self, block_model_label, block_model_options, triangulation_label, triangulation_options, BlockModelEntry,
    BlockModelId, SolidKind, TriangulationEntry, TriangulationId, UiProjectView,
};
use minedesign::ui::dialogs::triangulation::{
    estimate_tin_memory_bytes, object_label, tri_surface_type_label, Layer, LayerId, Object, TerrainSampler,
    TriSurfaceType,
};
use minedesign::ui::dialogs::widget_gallery::GalleryShape;
use minedesign::ui::elements::planning_setup::{
    aggregation_summary, MappingChoice, ReserveAggregation, ReserveField, ReserveFieldId, ReserveFieldMapping,
    ReserveMappingSource,
};

fn project() -> UiProjectView {
    UiProjectView {
        triangulations: vec![
            TriangulationEntry { id: TriangulationId(3), name: "Topo".to_string() },
            TriangulationEntry { id: TriangulationId(5), name: "Pit shell".to_string() },
            TriangulationEntry { id: TriangulationId(3), name: "Duplicate".to_string() },
        ],
        block_models: vec![BlockModelEntry { id: BlockModelId(1), name: "Resource".to_string() }],
    }
}

#[test]
fn solid_labels() {
    assert_eq!(solids::kind_label(SolidKind::Pit), "Pit");
    assert_eq!(solids::kind_label(SolidKind::Dump), "Dump");
    assert_eq!(solids::kind_label(SolidKind::Stockpile), "Stockpile");
}

#[test]
fn reserve_field_kind_labels() {
    assert_eq!(reserve_fields::kind_label(ReserveFieldKind::Sum), "Sum");
    assert_eq!(reserve_fields::kind_label(ReserveFieldKind::WeightedAverage), "Weighted average");
    assert_eq!(reserve_fields::kind_label(ReserveFieldKind::Category), "Category");
}

#[test]
fn triangulation_labels() {
    let p = project();
    assert_eq!(triangulation_label(&p, None), "None");
    assert_eq!(triangulation_label(&p, Some(TriangulationId(5))), "Pit shell");
    assert_eq!(triangulation_label(&p, Some(TriangulationId(3))), "Topo");
    assert_eq!(triangulation_label(&p, Some(TriangulationId(9))), "Missing surface");
}

#[test]
fn block_model_labels() {
    let p = project();
    assert_eq!(block_model_label(&p, None), "None");
    assert_eq!(block_model_label(&p, Some(BlockModelId(1))), "Resource");
    assert_eq!(block_model_label(&p, Some(BlockModelId(2))), "Missing block model");
}

#[test]
fn options_start_with_none() {
    let p = project();
    let t = triangulation_options(&p);
    assert_eq!(t.len(), 4);
    assert_eq!(t[0], (None, "None".to_string()));
    assert_eq!(t[2], (Some(TriangulationId(5)), "Pit shell".to_string()));
    let b = block_model_options(&p);
    assert_eq!(b, vec![(None, "None".to_string()), (Some(BlockModelId(1)), "Resource".to_string())]);
    let empty = UiProjectView { triangulations: vec![], block_models: vec![] };
    assert_eq!(triangulation_options(&empty), vec![(None, "None".to_string())]);
}

#[test]
fn short_labels() {
    assert_eq!(fill_style_label(FillStyle::Clear), "Clear");
    assert_eq!(fill_style_label(FillStyle::Crosses), "Crosses");
    assert_eq!(fill_style_label(FillStyle::Slashes), "Slashes");
    assert_eq!(fill_style_label(FillStyle::Solid), "Solid");
    assert_eq!(tri_surface_type_label(TriSurfaceType::Surface), "Open surface");
    assert_eq!(tri_surface_type_label(TriSurfaceType::SolidClosed), "Solid – fully closed");
    assert_eq!(GalleryShape::Circle.label(), "Circle");
    assert_eq!(GalleryShape::Square.label(), "Square");
    assert_eq!(GalleryShape::Triangle.label(), "Triangle");
}

#[test]
fn drill_presets() {
    assert_eq!(DrillColorPreset::Rainbow.label(), "Rainbow");
    assert_eq!(DrillColorPreset::Grayscale.label(), "Grayscale");
    assert_eq!(DrillColorPreset::Heat.label(), "Heat");
    assert_eq!(DrillColorPreset::GreenYellowRed.label(), "Green–Yellow–Red");
    assert!(DrillColorPreset::Rainbow.smooth());
    assert!(DrillColorPreset::Grayscale.smooth());
    assert!(DrillColorPreset::Heat.smooth());
    assert!(!DrillColorPreset::GreenYellowRed.smooth());
}

#[test]
fn drill_source_names() {
    let csv = DrillHoleSource::Csv { name: "Collars".to_string(), browser_path: None };
    assert_eq!(csv.display_name(), "Collars");
    let omf = DrillHoleSource::Omf { name: "Model".to_string(), path: "/data/a.omf".to_string() };
    assert_eq!(omf.display_name(), "Model");
    let dhd = DrillHoleSource::LegacyDhd { path: "/data/holes.dhd".to_string() };
    assert_eq!(dhd.display_name(), "holes.dhd");
    let no_name = DrillHoleSource::LegacyDhd { path: "..".to_string() };
    assert_eq!(no_name.display_name(), "unsupported drillhole source");
    let directory = DrillHoleSource::LegacyDhd { path: "/data/holes/".to_string() };
    assert_eq!(directory.display_name(), "holes");
    let root = DrillHoleSource::LegacyDhd { path: "/".to_string() };
    assert_eq!(root.display_name(), "unsupported drillhole source");
}

#[test]
fn project_names() {
    assert_eq!(project_name(None, "Untitled.pidb"), "Untitled.pidb");
    assert_eq!(project_name(Some("/home/me/pit.pidb"), "Untitled.pidb"), "pit.pidb");
    assert_eq!(project_name(Some("plan.dxf"), "Imported.pidb"), "plan.dxf");
    assert_eq!(project_name(Some(""), "Untitled.pidb"), "Untitled.pidb");
    assert_eq!(project_name(Some("/data/site.pidb"), "Untitled.pidb"), "site.pidb");
    assert_eq!(project_name(Some("/"), "Untitled.pidb"), "Untitled.pidb");
    assert_eq!(project_name(Some("/usr/bin/"), "Untitled.pidb"), "bin");
    assert_eq!(project_name(Some("tmp/foo.txt/.//"), "Untitled.pidb"), "foo.txt");
    assert_eq!(project_name(Some("foo.txt/.."), "Untitled.pidb"), "Untitled.pidb");
    assert_eq!(project_name(Some("."), "Untitled.pidb"), "Untitled.pidb");
    assert_eq!(name_or_fallback(Some("a".to_string()), "b"), "a");
    assert_eq!(name_or_fallback(None, "b"), "b");
}

#[test]
fn tin_memory_estimate() {
    assert_eq!(estimate_tin_memory_bytes(1000, TerrainSampler::Grid, 9), 1000 * 100 + 1000 * 48);
    assert_eq!(estimate_tin_memory_bytes(1000, TerrainSampler::Adaptive, 4), 4000 * 340 + 1000 * 48);
    assert_eq!(estimate_tin_memory_bytes(1000, TerrainSampler::Adaptive, 0), 1000 * 340 + 1000 * 48);
    assert_eq!(estimate_tin_memory_bytes(0, TerrainSampler::Grid, 1), 0);
}

#[test]
fn object_labels() {
    let layers = vec![Layer { id: LayerId(1), name: "Design".to_string() }];
    assert_eq!(object_label(&Object::Point { layer: LayerId(1) }, &layers), "Point on 'Design'");
    assert_eq!(object_label(&Object::Polyline { layer: LayerId(1), closed: true }, &layers), "Polygon on 'Design'");
    assert_eq!(object_label(&Object::Polyline { layer: LayerId(1), closed: false }, &layers), "String on 'Design'");
    assert_eq!(
        object_label(&Object::Text { layer: LayerId(1), content: "RL 100".to_string() }, &layers),
        "Text \"RL 100\" on 'Design'"
    );
    assert_eq!(object_label(&Object::Point { layer: LayerId(2) }, &layers), "Point on '?'");
}

#[test]
fn aggregation_summaries() {
    let fields = vec![
        ReserveField { id: ReserveFieldId(1), name: "Tonnes".to_string(), aggregation: ReserveAggregation::Sum },
        ReserveField {
            id: ReserveFieldId(2),
            name: "Fe".to_string(),
            aggregation: ReserveAggregation::WeightedAverage { weight_field: ReserveFieldId(1) },
        },
    ];
    assert_eq!(aggregation_summary(&fields, &ReserveAggregation::Sum), "Sum");
    assert_eq!(aggregation_summary(&fields, &ReserveAggregation::Category), "Category");
    assert_eq!(
        aggregation_summary(&fields, &ReserveAggregation::WeightedAverage { weight_field: ReserveFieldId(1) }),
        "Weighted avg. by Tonnes"
    );
    assert_eq!(
        aggregation_summary(&fields, &ReserveAggregation::WeightedAverage { weight_field: ReserveFieldId(9) }),
        "Weighted avg. by ?"
    );
}

#[test]
fn mapping_choices() {
    let mapping = vec![
        ReserveFieldMapping { field: ReserveFieldId(1), source: ReserveMappingSource::Column("TONNES".to_string()) },
        ReserveFieldMapping { field: ReserveFieldId(2), source: ReserveMappingSource::Constant },
    ];
    let col = MappingChoice::of(&mapping, ReserveFieldId(1));
    assert!(matches!(&col, MappingChoice::Column(name) if name == "TONNES"));
    assert_eq!(col.label(), "TONNES");
    let constant = MappingChoice::of(&mapping, ReserveFieldId(2));
    assert!(matches!(constant, MappingChoice::Constant));
    assert_eq!(constant.label(), "Constant");
    let none = MappingChoice::of(&mapping, ReserveFieldId(3));
    assert!(matches!(none, MappingChoice::Unmapped));
    assert_eq!(none.label(), "Unmapped");
}

#[test]
fn tooltip_waits_on_a_running_lookup() {
    assert!(matches!(modified_tooltip_step(Some(&CachedModifiedTime::Loading)), TooltipLookup::Wait));
}

#[test]
fn tooltip_shows_a_fresh_line_and_refetches_a_stale_one() {
    let fresh = CachedModifiedTime::Ready { age_secs: 29, line: Some("Modified 01-Jan-2024 10:00".to_string()) };
    match modified_tooltip_step(Some(&fresh)) {
        TooltipLookup::Show(Some(line)) => assert_eq!(line, "Modified 01-Jan-2024 10:00"),
        other => panic!("unexpected {:?}", other),
    }
    let unreadable = CachedModifiedTime::Ready { age_secs: 0, line: None };
    assert!(matches!(modified_tooltip_step(Some(&unreadable)), TooltipLookup::Show(None)));
    let stale = CachedModifiedTime::Ready { age_secs: 30, line: Some("x".to_string()) };
    assert!(matches!(modified_tooltip_step(Some(&stale)), TooltipLookup::Fetch));
    assert!(matches!(modified_tooltip_step(None), TooltipLookup::Fetch));
}
