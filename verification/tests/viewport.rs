use minedesign::ui::{viewport_label_text, ActiveTool, CircleDraftState, ViewportLabel, ViewportPromptState};

fn idle(tool: ActiveTool) -> ViewportPromptState {
    ViewportPromptState {
        active_tool: tool,
        slice_start_picked: false,
        measurement_complete: false,
        batter_angle_measured: false,
        batter_angle_point_count: 0,
        slice_mode_enabled: false,
        circle_draft: None,
        selection_empty: true,
        offset_awaiting_side_pick: false,
        offset_targets_empty: true,
        drape_picking_designs: true,
        relimit_confirming_end: false,
        relimit_waiting_for_pick: false,
        relimit_source_picked: false,
        relimit_awaiting_source_pick: false,
        fuse_awaiting_endpoint: false,
        fuse_segments_empty: true,
        split_polyline_picked: false,
        split_points_picked: [false, false],
        chamfer_corner_picked: false,
        bezier_polyline_picked: false,
        bezier_vertices_picked: [false, false],
        batter_berm_target_picked: false,
    }
}

fn message(s: &ViewportPromptState) -> Option<String> {
    match viewport_label_text(s) {
        Some(ViewportLabel::Message(text)) => Some(text),
        _ => None,
    }
}

#[test]
fn slice_line_prompts() {
    let mut s = idle(ActiveTool::VerticalSlice);
    assert_eq!(message(&s).as_deref(), Some("Click the first point of the slice line"));
    s.slice_start_picked = true;
    assert_eq!(message(&s).as_deref(), Some("Click the second point of the slice line"));
}

#[test]
fn measurements_are_left_to_the_caller_to_format() {
    let mut s = idle(ActiveTool::MeasureDistance);
    assert!(viewport_label_text(&s).is_none());
    s.measurement_complete = true;
    assert!(matches!(viewport_label_text(&s), Some(ViewportLabel::MeasuredDistance)));
    let mut b = idle(ActiveTool::MeasureBatterAngle);
    assert_eq!(message(&b).as_deref(), Some("Select first crest/toe point"));
    b.batter_angle_point_count = 1;
    assert_eq!(message(&b).as_deref(), Some("Select second crest/toe point"));
    b.batter_angle_point_count = 2;
    assert_eq!(message(&b).as_deref(), Some("Select opposite berm point"));
    b.batter_angle_measured = true;
    assert!(matches!(viewport_label_text(&b), Some(ViewportLabel::BatterAngle)));
}

#[test]
fn slice_mode_overrides_tool_prompts() {
    let mut s = idle(ActiveTool::Move);
    s.slice_mode_enabled = true;
    assert_eq!(
        message(&s).as_deref(),
        Some("Slice view: middle-drag pan · W/S move slab · Q/E rotate · Esc exit")
    );
}

#[test]
fn circle_prompts() {
    let mut s = idle(ActiveTool::MakeCircle);
    assert_eq!(message(&s).as_deref(), Some("Click the circle centre"));
    s.circle_draft = Some(CircleDraftState { radius_text_empty: true, typed_radius_valid: false });
    assert_eq!(message(&s).as_deref(), Some("Click a perimeter point or type a radius"));
    s.circle_draft = Some(CircleDraftState { radius_text_empty: false, typed_radius_valid: true });
    assert_eq!(
        message(&s).as_deref(),
        Some("Press Enter to use the typed radius, or click to use the pointer radius")
    );
    s.circle_draft = Some(CircleDraftState { radius_text_empty: false, typed_radius_valid: false });
    assert_eq!(message(&s).as_deref(), Some("Enter a positive decimal radius"));
}

#[test]
fn tool_stage_prompts() {
    assert_eq!(message(&idle(ActiveTool::Move)).as_deref(), Some("Select an item"));
    let mut moving = idle(ActiveTool::Move);
    moving.selection_empty = false;
    assert!(viewport_label_text(&moving).is_none());
    let mut relimit = idle(ActiveTool::RelimitLine);
    assert_eq!(message(&relimit).as_deref(), Some("Select line to relimit"));
    relimit.relimit_source_picked = true;
    assert!(viewport_label_text(&relimit).is_none());
    relimit.relimit_waiting_for_pick = true;
    assert_eq!(message(&relimit).as_deref(), Some("Select line to relimit to"));
    relimit.relimit_confirming_end = true;
    assert_eq!(message(&relimit).as_deref(), Some("Choose relimit side"));
    let mut split = idle(ActiveTool::SplitAtPoints);
    split.split_polyline_picked = true;
    assert_eq!(message(&split).as_deref(), Some("Select a split point"));
    split.split_points_picked = [true, false];
    assert_eq!(message(&split).as_deref(), Some("Select second split point"));
    assert_eq!(message(&idle(ActiveTool::DrapeToTopology)).as_deref(), Some("Select designs"));
    assert_eq!(message(&idle(ActiveTool::ExplodePolygon)).as_deref(), Some("Select a polygon"));
    assert!(viewport_label_text(&idle(ActiveTool::NoTool)).is_none());
    assert!(viewport_label_text(&idle(ActiveTool::MakeLine)).is_none());
}
