//! The user-interface side of the library: dialog labels and choices, the
//! console layout and the viewport prompt.
pub mod dialogs;
pub mod elements;

use vstd::prelude::*;

use crate::text::owned;

verus! {

/// The viewport tools.
#[derive(Clone, Copy, Debug, PartialEq, Eq, Structural)]
pub enum ActiveTool {
    NoTool,
    MakePoint,
    MakeLine,
    MakePoly,
    MakeText,
    MakeCircle,
    Move,
    DeleteElement,
    DeletePoints,
    OffsetElement,
    DrapeToTopology,
    RelimitLine,
    FuseIntoPolygon,
    FuseIntoPolyline,
    SplitAtPoints,
    Chamfer,
    Bezier,
    ExplodePolygon,
    ExplodePolyline,
    BatterBermOffset,
    MeasureDistance,
    MeasureBatterAngle,
    VerticalSlice,
}

/// The circle being drawn: whether a radius has been typed, and whether
/// what was typed is a usable radius.
#[derive(Clone, Copy, Debug)]
pub struct CircleDraftState {
    pub radius_text_empty: bool,
    pub typed_radius_valid: bool,
}

/// What the viewport prompt reads of the editor state.
#[derive(Clone, Copy, Debug)]
pub struct ViewportPromptState {
    pub active_tool: ActiveTool,
    pub slice_start_picked: bool,
    /// Both ends of a distance measurement are picked.
    pub measurement_complete: bool,
    /// The picked crest/toe/berm points yield a batter angle.
    pub batter_angle_measured: bool,
    pub batter_angle_point_count: usize,
    pub slice_mode_enabled: bool,
    pub circle_draft: Option<CircleDraftState>,
    pub selection_empty: bool,
    pub offset_awaiting_side_pick: bool,
    pub offset_targets_empty: bool,
    /// The drape tool is picking designs (rather than topologies).
    pub drape_picking_designs: bool,
    pub relimit_confirming_end: bool,
    pub relimit_waiting_for_pick: bool,
    pub relimit_source_picked: bool,
    pub relimit_awaiting_source_pick: bool,
    pub fuse_awaiting_endpoint: bool,
    pub fuse_segments_empty: bool,
    pub split_polyline_picked: bool,
    pub split_points_picked: [bool; 2],
    pub chamfer_corner_picked: bool,
    pub bezier_polyline_picked: bool,
    pub bezier_vertices_picked: [bool; 2],
    pub batter_berm_target_picked: bool,
}

/// The viewport prompt: a fixed message, or one of the two measurements,
/// whose numbers the caller formats.
#[derive(Clone, Debug)]
pub enum ViewportLabel {
    Message(String),
    MeasuredDistance,
    BatterAngle,
}

/// The prompt as the contract describes it.
pub ghost enum PromptSpec {
    Message(Seq<char>),
    MeasuredDistance,
    BatterAngle,
}

pub open spec fn label_spec(label: ViewportLabel) -> PromptSpec {
    match label {
        ViewportLabel::Message(text) => PromptSpec::Message(text@),
        ViewportLabel::MeasuredDistance => PromptSpec::MeasuredDistance,
        ViewportLabel::BatterAngle => PromptSpec::BatterAngle,
    }
}

/// The prompt for each tool and stage, first match wins.
pub open spec fn viewport_prompt(s: ViewportPromptState) -> Option<PromptSpec> {
    let m = |t: Seq<char>| Some(PromptSpec::Message(t));
    if s.active_tool == ActiveTool::VerticalSlice {
        if !s.slice_start_picked {
            m("Click the first point of the slice line"@)
        } else {
            m("Click the second point of the slice line"@)
        }
    } else if s.active_tool == ActiveTool::MeasureDistance && s.measurement_complete {
        Some(PromptSpec::MeasuredDistance)
    } else if s.active_tool == ActiveTool::MeasureBatterAngle {
        if s.batter_angle_measured {
            Some(PromptSpec::BatterAngle)
        } else if s.batter_angle_point_count == 0 {
            m("Select first crest/toe point"@)
        } else if s.batter_angle_point_count == 1 {
            m("Select second crest/toe point"@)
        } else {
            m("Select opposite berm point"@)
        }
    } else if s.slice_mode_enabled {
        m("Slice view: middle-drag pan · W/S move slab · Q/E rotate · Esc exit"@)
    } else if s.active_tool == ActiveTool::MakeCircle {
        match s.circle_draft {
            None => m("Click the circle centre"@),
            Some(d) => if d.radius_text_empty {
                m("Click a perimeter point or type a radius"@)
            } else if d.typed_radius_valid {
                m("Press Enter to use the typed radius, or click to use the pointer radius"@)
            } else {
                m("Enter a positive decimal radius"@)
            },
        }
    } else {
        match s.active_tool {
            ActiveTool::Move if s.selection_empty => m("Select an item"@),
            ActiveTool::OffsetElement if s.offset_awaiting_side_pick => m("Choose offset side"@),
            ActiveTool::OffsetElement if s.offset_targets_empty => m("Select a line or polygon"@),
            ActiveTool::DrapeToTopology if s.drape_picking_designs => m("Select designs"@),
            ActiveTool::DrapeToTopology => m("Select topologies"@),
            ActiveTool::RelimitLine if s.relimit_confirming_end => m("Choose relimit side"@),
            ActiveTool::RelimitLine if s.relimit_waiting_for_pick => m("Select line to relimit to"@),
            ActiveTool::RelimitLine if !s.relimit_source_picked || s.relimit_awaiting_source_pick => m(
                "Select line to relimit"@,
            ),
            ActiveTool::FuseIntoPolygon if s.fuse_awaiting_endpoint => m("Select the endpoint to join"@),
            ActiveTool::FuseIntoPolygon if !s.fuse_segments_empty => m("Select the next line to fuse"@),
            ActiveTool::FuseIntoPolygon => m("Select a line to fuse"@),
            ActiveTool::SplitAtPoints if !s.split_polyline_picked => m("Select a polygon or open line"@),
            ActiveTool::SplitAtPoints if !s.split_points_picked[0] => m("Select a split point"@),
            ActiveTool::SplitAtPoints if !s.split_points_picked[1] => m("Select second split point"@),
            ActiveTool::Chamfer if !s.chamfer_corner_picked => m("Select a polygon vertex"@),
            ActiveTool::Bezier if !s.bezier_polyline_picked => m("Select a polyline or polygon"@),
            ActiveTool::Bezier if !s.bezier_vertices_picked[0] => m("Click first vertex"@),
            ActiveTool::Bezier if !s.bezier_vertices_picked[1] => m("Click second vertex"@),
            ActiveTool::ExplodePolygon => m("Select a polygon"@),
            ActiveTool::BatterBermOffset if !s.batter_berm_target_picked => m("Select a polygon"@),
            ActiveTool::DeleteElement => m("Select an item"@),
            _ => None,
        }
    }
}

/// Tools that take their picks one after another prompt for the first pick
/// still missing, and fall silent once all are made: the slice line's two
/// points, the batter angle's crest/toe points and berm point, and (outside
/// slice view) the split points and the curve's polyline and two vertices.
pub proof fn law_prompt_asks_for_the_next_pick(s: ViewportPromptState)
    ensures
        s.active_tool == ActiveTool::VerticalSlice ==> viewport_prompt(s) == Some(PromptSpec::Message(
            if s.slice_start_picked {
                "Click the second point of the slice line"@
            } else {
                "Click the first point of the slice line"@
            },
        )),
        s.active_tool == ActiveTool::MeasureBatterAngle && !s.batter_angle_measured ==> viewport_prompt(s) == Some(
            PromptSpec::Message(
                if s.batter_angle_point_count == 0 {
                    "Select first crest/toe point"@
                } else if s.batter_angle_point_count == 1 {
                    "Select second crest/toe point"@
                } else {
                    "Select opposite berm point"@
                },
            ),
        ),
        s.active_tool == ActiveTool::Bezier && !s.slice_mode_enabled ==> viewport_prompt(s) == (
        if !s.bezier_polyline_picked {
            Some(PromptSpec::Message("Select a polyline or polygon"@))
        } else if !s.bezier_vertices_picked[0] {
            Some(PromptSpec::Message("Click first vertex"@))
        } else if !s.bezier_vertices_picked[1] {
            Some(PromptSpec::Message("Click second vertex"@))
        } else {
            None
        }),
        s.active_tool == ActiveTool::SplitAtPoints && !s.slice_mode_enabled ==> viewport_prompt(s) == (
        if !s.split_polyline_picked {
            Some(PromptSpec::Message("Select a polygon or open line"@))
        } else if !s.split_points_picked[0] {
            Some(PromptSpec::Message("Select a split point"@))
        } else if !s.split_points_picked[1] {
            Some(PromptSpec::Message("Select second split point"@))
        } else {
            None
        }),
{
}

/// The prompt shown over the viewport for the active tool and its stage,
/// or `None` when the tool needs no prompt.
pub fn viewport_label_text(s: &ViewportPromptState) -> (r: Option<ViewportLabel>)
    ensures
        match r {
            None => viewport_prompt(*s).is_none(),
            Some(label) => viewport_prompt(*s) == Some(label_spec(label)),
        },
{
    let message = |t: &str| -> (r: Option<ViewportLabel>)
        ensures
            r matches Some(ViewportLabel::Message(x)) && x@ == t@,
        { Some(ViewportLabel::Message(owned(t))) };
    if s.active_tool == ActiveTool::VerticalSlice {
        return if !s.slice_start_picked {
            message("Click the first point of the slice line")
        } else {
            message("Click the second point of the slice line")
        };
    }
    if s.active_tool == ActiveTool::MeasureDistance && s.measurement_complete {
        return Some(ViewportLabel::MeasuredDistance);
    }
    if s.active_tool == ActiveTool::MeasureBatterAngle {
        if s.batter_angle_measured {
            return Some(ViewportLabel::BatterAngle);
        }
        return if s.batter_angle_point_count == 0 {
            message("Select first crest/toe point")
        } else if s.batter_angle_point_count == 1 {
            message("Select second crest/toe point")
        } else {
            message("Select opposite berm point")
        };
    }
    if s.slice_mode_enabled {
        return message("Slice view: middle-drag pan · W/S move slab · Q/E rotate · Esc exit");
    }
    if s.active_tool == ActiveTool::MakeCircle {
        return match s.circle_draft {
            None => message("Click the circle centre"),
            Some(d) => if d.radius_text_empty {
                message("Click a perimeter point or type a radius")
            } else if d.typed_radius_valid {
                message("Press Enter to use the typed radius, or click to use the pointer radius")
            } else {
                message("Enter a positive decimal radius")
            },
        };
    }
    match s.active_tool {
        ActiveTool::Move if s.selection_empty => message("Select an item"),
        ActiveTool::OffsetElement if s.offset_awaiting_side_pick => message("Choose offset side"),
        ActiveTool::OffsetElement if s.offset_targets_empty => message("Select a line or polygon"),
        ActiveTool::DrapeToTopology if s.drape_picking_designs => message("Select designs"),
        ActiveTool::DrapeToTopology => message("Select topologies"),
        ActiveTool::RelimitLine if s.relimit_confirming_end => message("Choose relimit side"),
        ActiveTool::RelimitLine if s.relimit_waiting_for_pick => message("Select line to relimit to"),
        ActiveTool::RelimitLine if !s.relimit_source_picked || s.relimit_awaiting_source_pick => message(
            "Select line to relimit",
        ),
        ActiveTool::FuseIntoPolygon if s.fuse_awaiting_endpoint => message("Select the endpoint to join"),
        ActiveTool::FuseIntoPolygon if !s.fuse_segments_empty => message("Select the next line to fuse"),
        ActiveTool::FuseIntoPolygon => message("Select a line to fuse"),
        ActiveTool::SplitAtPoints if !s.split_polyline_picked => message("Select a polygon or open line"),
        ActiveTool::SplitAtPoints if !s.split_points_picked[0] => message("Select a split point"),
        ActiveTool::SplitAtPoints if !s.split_points_picked[1] => message("Select second split point"),
        ActiveTool::Chamfer if !s.chamfer_corner_picked => message("Select a polygon vertex"),
        ActiveTool::Bezier if !s.bezier_polyline_picked => message("Select a polyline or polygon"),
        ActiveTool::Bezier if !s.bezier_vertices_picked[0] => message("Click first vertex"),
        ActiveTool::Bezier if !s.bezier_vertices_picked[1] => message("Click second vertex"),
        ActiveTool::ExplodePolygon => message("Select a polygon"),
        ActiveTool::BatterBermOffset if !s.batter_berm_target_picked => message("Select a polygon"),
        ActiveTool::DeleteElement => message("Select an item"),
        _ => None,
    }
}

} // verus!
