//! The state of the rule editor and what each frame does to it.
//!
//! The editor shows one rule. The program around it lays the rule out on the
//! screen, asks the toolkit what the pointer did to each corner and each
//! placement, and hands that over as the interactions of the frame, in the
//! order in which it asked. What follows from them is decided here.
//!
//! One thing a frame takes from the toolkit while it runs: how far the
//! pointer is from where a press began. That length is measured by a routine
//! whose last digit may differ from run to run. So the contracts say what a
//! frame does for every length that may be measured, and each function that
//! measures has a twin that is handed the lengths and is stated exactly.

use crate::drag::{
    lemma_moved_same_tiles, lemma_same_tiles_closed, lemma_shifted_same_tiles, moved,
    same_tiles, snap_pair, snap_target, snapped, with_placements,
};
use crate::screen::{
    inverse, length, model_vector, origin, pointer_travel, rank_of, to_tile_vec, transform_pos,
    way, unset_view, view_image, view_inverse, INFINITE,
};
use crate::selection::{
    all_below, all_different, corner_clicked, selection_valid, shape_clicked, shape_selected,
    shapes_below, Selection, SelectionModel,
};
use crate::tiling::{rules_closed, StepModel, TilePlacement, TilingStep};
use egui::emath::RectTransform;
use egui::Pos2;
use kurbo::{Affine, Point, Vec2};
use vstd::prelude::*;

verus! {

/// The way the pointer has to go on the screen before a press becomes a
/// drag: 5 units, as the rank of the float 5.
pub const DRAG_START: u32 = 0x40A0_0000;

/// The tool that is chosen in the editor.
#[derive(Clone, Copy, Debug, PartialEq, Eq)]
pub enum Tool {
    Select,
    Move,
}

/// What the editor keeps from frame to frame.
pub struct WindowState {
    /// Whether the editor is shown.
    pub open: bool,
    /// The rule that is edited.
    pub current_tile: usize,
    /// The map from the coordinates of the rule to those of the screen.
    pub draw_transform: RectTransform,
    pub tool: Tool,
    pub selection: Selection,
    /// The transforms of the selected placements when the drag began, in the
    /// order of the selection. Empty while nothing is dragged.
    pub drag_transforms: Vec<Affine>,
    /// Where on the screen the drag began.
    pub drag_start_p: Pos2,
    /// Whether the pointer has gone far enough for the press to be a drag.
    pub drag_activated: bool,
    /// Whether a drag snaps.
    pub snap: bool,
    /// The point that the last frame snapped the selection to, if it did.
    pub last_snap_point: Option<Point>,
}

/// The state as the contracts see it.
pub ghost struct EditorModel {
    pub open: bool,
    pub current_tile: usize,
    pub draw_transform: RectTransform,
    pub tool: Tool,
    pub selection: SelectionModel,
    pub drag_transforms: Seq<Affine>,
    pub drag_start_p: Pos2,
    pub drag_activated: bool,
    pub snap: bool,
    pub last_snap_point: Option<Point>,
}

impl View for WindowState {
    type V = EditorModel;

    open spec fn view(&self) -> EditorModel {
        EditorModel {
            open: self.open,
            current_tile: self.current_tile,
            draw_transform: self.draw_transform,
            tool: self.tool,
            selection: self.selection@,
            drag_transforms: self.drag_transforms@,
            drag_start_p: self.drag_start_p,
            drag_activated: self.drag_activated,
            snap: self.snap,
            last_snap_point: self.last_snap_point,
        }
    }
}

/// What the pointer did to one corner or one placement in a frame.
#[derive(Clone, Copy)]
pub enum Interaction {
    /// The corner `corner` of the placement `shape` was clicked.
    PointClicked { shape: usize, corner: usize },
    /// The placement `shape` was clicked.
    ShapeClicked { shape: usize },
    /// A drag began on the placement `shape`, with the pointer at `pointer`.
    DragStarted { shape: usize, pointer: Pos2 },
    /// A placement is being dragged, with the pointer now at `pointer`.
    Dragged { pointer: Pos2 },
}

/// The state with another selection.
pub open spec fn with_selection(m: EditorModel, selection: SelectionModel) -> EditorModel {
    EditorModel { selection, ..m }
}

/// Whether the state is valid: its selection is a set.
pub open spec fn state_valid(m: EditorModel) -> bool {
    selection_valid(m.selection)
}

/// The selected placements.
pub open spec fn selected_shapes(m: EditorModel) -> Seq<usize> {
    match m.selection {
        SelectionModel::Shapes { shapes } => shapes,
        _ => Seq::empty(),
    }
}

/// The transforms of `shapes` among `placements`, in the order of `shapes`.
pub open spec fn snapshots(placements: Seq<TilePlacement>, shapes: Seq<usize>) -> Seq<Affine> {
    Seq::new(shapes.len(), |k: int| placements[shapes[k] as int].transform)
}

/// Whether the start of a drag on the placement `shape` finds each placement
/// it has to look at among the `count` placements of the rule.
pub open spec fn can_start_drag(m: EditorModel, count: nat, shape: usize, shift: bool) -> bool {
    if shape_selected(m.selection, shape) {
        shapes_below(m.selection, count)
    } else {
        shift || shape < count
    }
}

/// The state after a drag began on the placement `shape`. A drag on a
/// placement that is not selected selects it alone, unless shift is held:
/// then no drag begins. Where one begins, the transform of each selected
/// placement is kept, as `placements` has it.
pub open spec fn drag_started(
    m: EditorModel,
    placements: Seq<TilePlacement>,
    shape: usize,
    pointer: Pos2,
    shift: bool,
) -> EditorModel {
    if !shape_selected(m.selection, shape) && shift {
        EditorModel { drag_transforms: Seq::empty(), ..m }
    } else {
        let shapes = if shape_selected(m.selection, shape) {
            selected_shapes(m)
        } else {
            seq![shape]
        };
        EditorModel {
            selection: SelectionModel::Shapes { shapes },
            drag_transforms: snapshots(placements, shapes),
            drag_start_p: pointer,
            drag_activated: false,
            ..m
        }
    }
}

/// Whether a way on the screen, given by the rank of its length, is longer
/// than the 5 units at which a drag starts. A way whose length is no number
/// is not.
pub open spec fn beyond_drag_start(travel: u32) -> bool {
    DRAG_START < travel <= INFINITE
}

/// The way from where the drag began to `pointer`, in the coordinates of the
/// rule: both positions are taken back through the view, then subtracted.
pub open spec fn drag_offset(m: EditorModel, pointer: Pos2) -> Vec2 {
    let back = view_inverse(m.draw_transform);
    model_vector(pointer_travel(view_image(back, pointer), view_image(back, m.drag_start_p)))
}

/// Whether the press is a drag in a frame that finds the pointer `travel`
/// from where the press began: it is once the pointer has been further than 5
/// units away, and stays one from then on.
pub open spec fn drag_active(m: EditorModel, travel: u32) -> bool {
    m.drag_activated || beyond_drag_start(travel)
}

/// Whether a drag goes ahead: a drag has begun, placements are selected,
/// none of them twice, the snapshot covers them, and they are among the
/// `count` placements of the rule.
pub open spec fn can_drag(m: EditorModel, count: nat) -> bool {
    &&& m.drag_transforms.len() > 0
    &&& m.selection is Shapes
    &&& selected_shapes(m).no_duplicates()
    &&& selected_shapes(m).len() <= m.drag_transforms.len()
    &&& all_below(selected_shapes(m), count)
}

/// The rule set after the drag was applied, before any snap: nothing changes
/// until the press is a drag; from then on each selected placement is its
/// snapshot translated by the whole way since the press.
pub open spec fn drag_moved(m: EditorModel, step: StepModel, pointer: Pos2, travel: u32) -> StepModel {
    let tile = m.current_tile as int;
    if drag_active(m, travel) {
        with_placements(
            step,
            tile,
            moved(step.rules[tile].result, selected_shapes(m), m.drag_transforms, drag_offset(m, pointer)),
        )
    } else {
        step
    }
}

/// Whether a frame snaps what is dragged: snapping is on, shift is not held,
/// and the press is a drag.
pub open spec fn snap_applies(m: EditorModel, travel: u32, shift: bool) -> bool {
    m.snap && !shift && drag_active(m, travel)
}

/// The rule set after a frame of dragging: the drag is applied, then the
/// snap. A press that is not yet a drag changes nothing.
pub open spec fn drag_result(
    m: EditorModel,
    step: StepModel,
    pointer: Pos2,
    travel: u32,
    shift: bool,
) -> StepModel {
    let tile = m.current_tile as int;
    let step1 = drag_moved(m, step, pointer, travel);
    if snap_applies(m, travel, shift) {
        with_placements(step1, tile, snapped(step1.rules, tile, selected_shapes(m)))
    } else {
        step1
    }
}

/// The state after a frame of dragging.
pub open spec fn dragged(
    m: EditorModel,
    step: StepModel,
    pointer: Pos2,
    travel: u32,
    shift: bool,
) -> EditorModel {
    let tile = m.current_tile as int;
    EditorModel {
        drag_activated: drag_active(m, travel),
        last_snap_point: if snap_applies(m, travel, shift) {
            snap_target(drag_moved(m, step, pointer, travel).rules, tile, selected_shapes(m))
        } else {
            None
        },
        ..m
    }
}

/// The state after one interaction. `placements` are those of the rule as
/// the frame began; `travel` is how far the pointer was found from where the
/// press began, and counts for a frame of dragging only.
pub open spec fn interaction_state(
    m: EditorModel,
    step: StepModel,
    placements: Seq<TilePlacement>,
    e: Interaction,
    travel: u32,
    shift: bool,
) -> EditorModel {
    match e {
        Interaction::PointClicked { shape, corner } => with_selection(
            m,
            corner_clicked(m.selection, shape, corner, shift),
        ),
        Interaction::ShapeClicked { shape } => with_selection(m, shape_clicked(m.selection, shape, shift)),
        Interaction::DragStarted { shape, pointer } => if can_start_drag(
            m,
            placements.len(),
            shape,
            shift,
        ) {
            drag_started(m, placements, shape, pointer, shift)
        } else {
            m
        },
        Interaction::Dragged { pointer } => if can_drag(m, placements.len()) {
            dragged(m, step, pointer, travel, shift)
        } else {
            m
        },
    }
}

/// The rule set after one interaction.
pub open spec fn interaction_step(
    m: EditorModel,
    step: StepModel,
    placements: Seq<TilePlacement>,
    e: Interaction,
    travel: u32,
    shift: bool,
) -> StepModel {
    match e {
        Interaction::Dragged { pointer } => if can_drag(m, placements.len()) {
            drag_result(m, step, pointer, travel, shift)
        } else {
            step
        },
        _ => step,
    }
}

/// The state after the interactions of a frame, one after the other. The
/// `k`-th of `travels` goes with the `k`-th interaction.
pub open spec fn interactions_state(
    m: EditorModel,
    step: StepModel,
    placements: Seq<TilePlacement>,
    events: Seq<Interaction>,
    travels: Seq<u32>,
    shift: bool,
) -> EditorModel
    decreases events.len(),
{
    if events.len() == 0 {
        m
    } else {
        interaction_state(
            interactions_state(m, step, placements, events.drop_last(), travels.drop_last(), shift),
            interactions_step(m, step, placements, events.drop_last(), travels.drop_last(), shift),
            placements,
            events.last(),
            travels.last(),
            shift,
        )
    }
}

/// The rule set after the interactions of a frame, one after the other.
pub open spec fn interactions_step(
    m: EditorModel,
    step: StepModel,
    placements: Seq<TilePlacement>,
    events: Seq<Interaction>,
    travels: Seq<u32>,
    shift: bool,
) -> StepModel
    decreases events.len(),
{
    if events.len() == 0 {
        step
    } else {
        interaction_step(
            interactions_state(m, step, placements, events.drop_last(), travels.drop_last(), shift),
            interactions_step(m, step, placements, events.drop_last(), travels.drop_last(), shift),
            placements,
            events.last(),
            travels.last(),
            shift,
        )
    }
}

/// The state as a frame finds it: what the frame before snapped to is
/// forgotten.
pub open spec fn frame_begun(m: EditorModel) -> EditorModel {
    EditorModel { last_snap_point: None, ..m }
}

/// The state after a frame. A frame whose rule is not in the rule set leaves
/// everything as it is. A click on the background deselects, unless a corner
/// or a placement was clicked or dragged in the same frame.
pub open spec fn frame_state(
    m: EditorModel,
    step: StepModel,
    shift: bool,
    events: Seq<Interaction>,
    travels: Seq<u32>,
    background_clicked: bool,
) -> EditorModel {
    if m.current_tile < step.rules.len() {
        let after = interactions_state(
            frame_begun(m),
            step,
            step.rules[m.current_tile as int].result,
            events,
            travels,
            shift,
        );
        if background_clicked && events.len() == 0 {
            with_selection(after, SelectionModel::Nothing)
        } else {
            after
        }
    } else {
        m
    }
}

/// The rule set after a frame.
pub open spec fn frame_step(
    m: EditorModel,
    step: StepModel,
    shift: bool,
    events: Seq<Interaction>,
    travels: Seq<u32>,
) -> StepModel {
    if m.current_tile < step.rules.len() {
        interactions_step(
            frame_begun(m),
            step,
            step.rules[m.current_tile as int].result,
            events,
            travels,
            shift,
        )
    } else {
        step
    }
}

/// A frame of dragging changes the transforms in the rule that is edited
/// and nothing else: the rule set stays closed, as long, and each rule keeps
/// its placements' tiles.
pub proof fn lemma_drag_keeps_tiles(
    m: EditorModel,
    step: StepModel,
    pointer: Pos2,
    travel: u32,
    shift: bool,
)
    requires
        rules_closed(step.rules),
        m.current_tile < step.rules.len(),
        can_drag(m, step.rules[m.current_tile as int].result.len()),
    ensures
        rules_closed(drag_moved(m, step, pointer, travel).rules),
        drag_moved(m, step, pointer, travel).rules.len() == step.rules.len(),
        same_tiles(
            step.rules[m.current_tile as int].result,
            drag_moved(m, step, pointer, travel).rules[m.current_tile as int].result,
        ),
        rules_closed(drag_result(m, step, pointer, travel, shift).rules),
        drag_result(m, step, pointer, travel, shift).rules.len() == step.rules.len(),
        same_tiles(
            step.rules[m.current_tile as int].result,
            drag_result(m, step, pointer, travel, shift).rules[m.current_tile as int].result,
        ),
{
    let tile = m.current_tile as int;
    let shapes = selected_shapes(m);
    let placements = step.rules[tile].result;
    if drag_active(m, travel) {
        let after = moved(placements, shapes, m.drag_transforms, drag_offset(m, pointer));
        lemma_moved_same_tiles(placements, shapes, m.drag_transforms, drag_offset(m, pointer));
        lemma_same_tiles_closed(step, tile, after);
    }
    let step1 = drag_moved(m, step, pointer, travel);
    let placements1 = step1.rules[tile].result;
    if snap_applies(m, travel, shift) {
        match snap_pair(step1.rules, tile, shapes) {
            Some((target, movable)) => {
                lemma_shifted_same_tiles(
                    placements1,
                    shapes,
                    crate::geometry::point_difference(target, movable),
                );
            },
            None => {},
        }
        lemma_same_tiles_closed(step1, tile, snapped(step1.rules, tile, shapes));
    }
}

/// The interactions of a frame change the transforms in the rule that is
/// edited and nothing else, whatever lengths are measured.
pub proof fn lemma_interactions_keep_tiles(
    m: EditorModel,
    step: StepModel,
    events: Seq<Interaction>,
    travels: Seq<u32>,
    shift: bool,
)
    requires
        rules_closed(step.rules),
        m.current_tile < step.rules.len(),
    ensures
        interactions_state(
            m,
            step,
            step.rules[m.current_tile as int].result,
            events,
            travels,
            shift,
        ).current_tile == m.current_tile,
        rules_closed(
            interactions_step(
                m,
                step,
                step.rules[m.current_tile as int].result,
                events,
                travels,
                shift,
            ).rules,
        ),
        interactions_step(
            m,
            step,
            step.rules[m.current_tile as int].result,
            events,
            travels,
            shift,
        ).rules.len() == step.rules.len(),
        same_tiles(
            step.rules[m.current_tile as int].result,
            interactions_step(
                m,
                step,
                step.rules[m.current_tile as int].result,
                events,
                travels,
                shift,
            ).rules[m.current_tile as int].result,
        ),
    decreases events.len(),
{
    if events.len() > 0 {
        let placements = step.rules[m.current_tile as int].result;
        lemma_interactions_keep_tiles(m, step, events.drop_last(), travels.drop_last(), shift);
        let m1 = interactions_state(m, step, placements, events.drop_last(), travels.drop_last(), shift);
        let step1 = interactions_step(m, step, placements, events.drop_last(), travels.drop_last(), shift);
        match events.last() {
            Interaction::Dragged { pointer } => {
                if can_drag(m1, placements.len()) {
                    lemma_drag_keeps_tiles(m1, step1, pointer, travels.last(), shift);
                }
            },
            _ => {},
        }
    }
}

/// The frames of one drag that brings the pointer to each of `pointers` in
/// turn.
pub open spec fn drag_frames(pointers: Seq<Pos2>) -> Seq<Interaction> {
    Seq::new(pointers.len(), |k: int| Interaction::Dragged { pointer: pointers[k] })
}

/// While the pointer is found within 5 units of where a press began, no
/// frame moves a placement, however many frames there are, and the press is
/// not yet a drag.
pub proof fn lemma_drag_below_start(
    m: EditorModel,
    step: StepModel,
    pointers: Seq<Pos2>,
    travels: Seq<u32>,
    shift: bool,
)
    requires
        !m.drag_activated,
        travels.len() == pointers.len(),
        forall|k: int| 0 <= k < travels.len() ==> !beyond_drag_start(#[trigger] travels[k]),
    ensures
        interactions_step(
            m,
            step,
            step.rules[m.current_tile as int].result,
            drag_frames(pointers),
            travels,
            shift,
        ) == step,
        frame_begun(
            interactions_state(
                m,
                step,
                step.rules[m.current_tile as int].result,
                drag_frames(pointers),
                travels,
                shift,
            ),
        ) == frame_begun(m),
    decreases pointers.len(),
{
    if pointers.len() > 0 {
        let placements = step.rules[m.current_tile as int].result;
        let before = pointers.drop_last();
        let earlier = travels.drop_last();
        assert forall|k: int| 0 <= k < earlier.len() implies !beyond_drag_start(#[trigger] earlier[k]) by {
            assert(earlier[k] == travels[k]);
        }
        lemma_drag_below_start(m, step, before, earlier, shift);
        assert(drag_frames(pointers).drop_last() == drag_frames(before));
        let m1 = interactions_state(m, step, placements, drag_frames(before), earlier, shift);
        assert(frame_begun(m1) == frame_begun(m));
        assert(m1.drag_activated == frame_begun(m1).drag_activated);
        assert(travels[travels.len() - 1] == travels.last());
        assert(!beyond_drag_start(travels.last()));
    }
}

/// The first frame that finds the pointer further than 5 units from where
/// the press began applies the whole way at once: each selected placement is
/// set to its snapshot, translated by the way from the start of the press to
/// the pointer. The snap of that frame, if any, comes on top.
pub proof fn lemma_drag_crossing(
    m: EditorModel,
    step: StepModel,
    below: Seq<Pos2>,
    travels: Seq<u32>,
    crossing: Pos2,
    travel: u32,
    shift: bool,
)
    requires
        !m.drag_activated,
        travels.len() == below.len(),
        forall|k: int| 0 <= k < travels.len() ==> !beyond_drag_start(#[trigger] travels[k]),
        can_drag(m, step.rules[m.current_tile as int].result.len()),
        beyond_drag_start(travel),
    ensures
        drag_moved(m, step, crossing, travel) == with_placements(
            step,
            m.current_tile as int,
            moved(
                step.rules[m.current_tile as int].result,
                selected_shapes(m),
                m.drag_transforms,
                drag_offset(m, crossing),
            ),
        ),
        interactions_step(
            m,
            step,
            step.rules[m.current_tile as int].result,
            drag_frames(below.push(crossing)),
            travels.push(travel),
            shift,
        ) == drag_result(m, step, crossing, travel, shift),
        !(m.snap && !shift) ==> drag_result(m, step, crossing, travel, shift) == drag_moved(
            m,
            step,
            crossing,
            travel,
        ),
        interactions_state(
            m,
            step,
            step.rules[m.current_tile as int].result,
            drag_frames(below.push(crossing)),
            travels.push(travel),
            shift,
        ).drag_activated,
{
    let placements = step.rules[m.current_tile as int].result;
    lemma_drag_below_start(m, step, below, travels, shift);
    let all = below.push(crossing);
    assert(drag_frames(all).drop_last() == drag_frames(below));
    assert(drag_frames(all).last() == Interaction::Dragged { pointer: crossing });
    assert(travels.push(travel).drop_last() == travels);
    let m1 = interactions_state(m, step, placements, drag_frames(below), travels, shift);
    assert(frame_begun(m1) == frame_begun(m));
    assert(m1.drag_start_p == frame_begun(m1).drag_start_p);
    assert(m1.drag_activated == frame_begun(m1).drag_activated);
    assert(m1.selection == frame_begun(m1).selection);
    assert(m1.snap == frame_begun(m1).snap);
    assert(m1.current_tile == frame_begun(m1).current_tile);
    assert(m1.drag_transforms == frame_begun(m1).drag_transforms);
    assert(m1.draw_transform == frame_begun(m1).draw_transform);
}

impl Default for WindowState {
    /// The state of an editor that is closed, shows the first rule, has
    /// nothing selected and snaps.
    fn default() -> (state: WindowState)
        ensures
            !state@.open,
            state@.current_tile == 0,
            state@.tool == Tool::Select,
            state@.selection == SelectionModel::Nothing,
            state@.drag_transforms.len() == 0,
            !state@.drag_activated,
            state@.snap,
            state@.last_snap_point is None,
            state.wf(),
    {
        WindowState {
            open: false,
            current_tile: 0,
            draw_transform: unset_view(),
            tool: Tool::Select,
            selection: Selection::Nothing,
            drag_transforms: Vec::new(),
            drag_start_p: origin(),
            drag_activated: false,
            snap: true,
            last_snap_point: None,
        }
    }
}

impl WindowState {
    /// The state is valid: its selection is a set, with no corner and no
    /// placement in it twice. Every function of the editor keeps a valid
    /// state valid.
    pub open spec fn wf(&self) -> bool {
        state_valid(self@)
    }

    /// Whether the state is valid.
    pub fn is_valid(&self) -> (ok: bool)
        ensures
            ok == self.wf(),
    {
        self.selection.is_valid()
    }

    /// Whether the placement `tile` is selected.
    pub fn is_selected(&self, tile: usize) -> (selected: bool)
        ensures
            selected == shape_selected(self@.selection, tile),
    {
        self.selection.has_shape(tile)
    }

    /// A click on the corner `corner` of the placement `shape`: without shift
    /// the corner is selected alone; with shift it joins or leaves the
    /// selected corners of that placement.
    pub fn update_point_selection(&mut self, shape: usize, corner: usize, shift: bool)
        ensures
            final(self)@ == with_selection(
                old(self)@,
                corner_clicked(old(self)@.selection, shape, corner, shift),
            ),
            old(self).wf() ==> final(self).wf(),
    {
        self.selection = self.selection.click_corner(shape, corner, shift);
    }

    /// A click on the placement `tile`: without shift the placement is
    /// selected alone; with shift it joins or leaves the selected placements.
    pub fn update_tile_selection(&mut self, tile: usize, shift: bool)
        ensures
            final(self)@ == with_selection(old(self)@, shape_clicked(old(self)@.selection, tile, shift)),
            old(self).wf() ==> final(self).wf(),
    {
        self.selection = self.selection.click_shape(tile, shift);
    }

    /// Whether the start of a drag on the placement `shape` finds each
    /// placement it has to look at among `count` placements.
    pub fn may_start_drag(&self, count: usize, shape: usize, shift: bool) -> (ok: bool)
        ensures
            ok == can_start_drag(self@, count as nat, shape, shift),
    {
        if self.is_selected(shape) {
            self.selection.below(count)
        } else {
            shift || shape < count
        }
    }

    /// The start of a drag on the placement `shape`, with the pointer at
    /// `pointer`. `placements` are those of the rule that is edited.
    pub fn start_drag(&mut self, placements: &Vec<TilePlacement>, shape: usize, pointer: Pos2, shift: bool)
        requires
            can_start_drag(old(self)@, placements@.len(), shape, shift),
        ensures
            final(self)@ == drag_started(old(self)@, placements@, shape, pointer, shift),
            old(self).wf() ==> final(self).wf(),
    {
        assert(seq![shape].no_duplicates());
        self.drag_transforms = Vec::new();
        let mut maybe_drag = true;
        if !self.is_selected(shape) {
            if !shift {
                let mut shapes: Vec<usize> = Vec::new();
                shapes.push(shape);
                assert(shapes@ == seq![shape]);
                self.selection = Selection::Shapes { shapes };
            } else {
                maybe_drag = false;
            }
        }
        if maybe_drag {
            let mut kept: Vec<Affine> = Vec::new();
            match &self.selection {
                Selection::Shapes { shapes } => {
                    let mut k: usize = 0;
                    while k < shapes.len()
                        invariant
                            k <= shapes.len(),
                            all_below(shapes@, placements@.len()),
                            kept@ == snapshots(placements@, shapes@).take(k as int),
                        decreases shapes.len() - k,
                    {
                        assert(shapes@[k as int] < placements@.len());
                        kept.push(placements[shapes[k]].transform);
                        k += 1;
                        assert(kept@ == snapshots(placements@, shapes@).take(k as int));
                    }
                    assert(snapshots(placements@, shapes@).take(k as int) == snapshots(
                        placements@,
                        shapes@,
                    ));
                },
                _ => {},
            }
            self.drag_transforms = kept;
            self.drag_start_p = pointer;
            self.drag_activated = false;
        }
    }

    /// Whether a drag goes ahead on a rule of `count` placements.
    pub fn may_drag(&self, count: usize) -> (ok: bool)
        ensures
            ok == can_drag(self@, count as nat),
    {
        match &self.selection {
            Selection::Shapes { shapes } => {
                self.drag_transforms.len() > 0 && shapes.len() <= self.drag_transforms.len()
                    && all_different(shapes) && self.selection.below(count)
            },
            _ => false,
        }
    }

    /// How far `pointer` is from where the press began, on the screen, as
    /// the rank of the length that is measured. The measure may differ in its
    /// last digit from one call to the next.
    fn travel_to(&self, pointer: Pos2) -> (travel: u32) {
        rank_of(length(&way(&pointer, &self.drag_start_p)))
    }

    /// A frame of dragging that finds the pointer at `pointer`, `travel`
    /// from where the press began. Until the pointer has been further than 5
    /// units away, the frame changes no placement; from then on each selected
    /// placement is set to its transform from the start of the drag,
    /// translated by the whole way since, and then, where snapping is on and
    /// shift is not held, the selection snaps.
    pub fn drag_measured(&mut self, value: &mut TilingStep, pointer: Pos2, travel: u32, shift: bool)
        requires
            old(value).wf(),
            old(self)@.current_tile < old(value)@.rules.len(),
            can_drag(old(self)@, old(value)@.rules[old(self)@.current_tile as int].result.len()),
        ensures
            final(self)@ == dragged(old(self)@, old(value)@, pointer, travel, shift),
            final(value)@ == drag_result(old(self)@, old(value)@, pointer, travel, shift),
            final(value).wf(),
            old(self).wf() ==> final(self).wf(),
    {
        let tile = self.current_tile;
        let ghost m = self@;
        let ghost step = value@;
        proof {
            lemma_drag_keeps_tiles(m, step, pointer, travel, shift);
        }
        let active = self.drag_activated || (DRAG_START < travel && travel <= INFINITE);
        let mut target: Option<Point> = None;
        if active {
            let back = inverse(&self.draw_transform);
            let movement_draw = way(
                &transform_pos(&back, &pointer),
                &transform_pos(&back, &self.drag_start_p),
            );
            match &self.selection {
                Selection::Shapes { shapes } => {
                    assert(shapes@ == selected_shapes(m));
                    value.move_placements(tile, shapes, &self.drag_transforms, &to_tile_vec(&movement_draw));
                    assert(value@ == drag_moved(m, step, pointer, travel));
                    if self.snap && !shift {
                        target = value.snap_placements(tile, shapes);
                    }
                },
                _ => {},
            }
        }
        self.drag_activated = active;
        self.last_snap_point = target;
    }

    /// A frame of dragging, with the pointer at `pointer`: the way from where
    /// the press began is measured, and the frame is that of `drag_measured`
    /// for the length that the measure gave.
    pub fn drag(&mut self, value: &mut TilingStep, pointer: Pos2, shift: bool)
        requires
            old(value).wf(),
            old(self)@.current_tile < old(value)@.rules.len(),
            can_drag(old(self)@, old(value)@.rules[old(self)@.current_tile as int].result.len()),
        ensures
            exists|travel: u32|
                {
                    &&& final(self)@ == #[trigger] dragged(old(self)@, old(value)@, pointer, travel, shift)
                    &&& final(value)@ == drag_result(old(self)@, old(value)@, pointer, travel, shift)
                },
            final(value).wf(),
            old(self).wf() ==> final(self).wf(),
    {
        let travel = self.travel_to(pointer);
        self.drag_measured(value, pointer, travel, shift);
    }

    /// One interaction of a frame. `placements` are those of the rule as the
    /// frame began; `travel` is how far the pointer was found from where the
    /// press began, and counts for a frame of dragging only. The start of a
    /// drag and a frame of dragging are left out where the selection does
    /// not fit the rule.
    pub fn interact(
        &mut self,
        value: &mut TilingStep,
        placements: &Vec<TilePlacement>,
        e: Interaction,
        travel: u32,
        shift: bool,
    )
        requires
            old(value).wf(),
            old(self)@.current_tile < old(value)@.rules.len(),
            old(value)@.rules[old(self)@.current_tile as int].result.len() == placements@.len(),
        ensures
            final(self)@ == interaction_state(old(self)@, old(value)@, placements@, e, travel, shift),
            final(value)@ == interaction_step(old(self)@, old(value)@, placements@, e, travel, shift),
            final(value).wf(),
            old(self).wf() ==> final(self).wf(),
            final(self)@.current_tile == old(self)@.current_tile,
            final(value)@.rules.len() == old(value)@.rules.len(),
            final(value)@.rules[old(self)@.current_tile as int].result.len() == placements@.len(),
    {
        match e {
            Interaction::PointClicked { shape, corner } => {
                self.update_point_selection(shape, corner, shift);
            },
            Interaction::ShapeClicked { shape } => {
                self.update_tile_selection(shape, shift);
            },
            Interaction::DragStarted { shape, pointer } => {
                if self.may_start_drag(placements.len(), shape, shift) {
                    self.start_drag(placements, shape, pointer, shift);
                }
            },
            Interaction::Dragged { pointer } => {
                if self.may_drag(placements.len()) {
                    proof {
                        lemma_drag_keeps_tiles(self@, value@, pointer, travel, shift);
                    }
                    self.drag_measured(value, pointer, travel, shift);
                }
            },
        }
    }

    /// One frame of the editor, with the lengths from `given` or, where there
    /// are none, with lengths that are measured. Hands back the lengths that
    /// the frame went by.
    fn play(
        &mut self,
        value: &mut TilingStep,
        shift: bool,
        interactions: &Vec<Interaction>,
        given: Option<&Vec<u32>>,
        background_clicked: bool,
    ) -> (travels: Ghost<Seq<u32>>)
        requires
            old(value).wf(),
            given matches Some(lengths) ==> lengths@.len() == interactions@.len(),
        ensures
            travels@.len() == interactions@.len(),
            given matches Some(lengths) ==> travels@ == lengths@,
            final(self)@ == frame_state(
                old(self)@,
                old(value)@,
                shift,
                interactions@,
                travels@,
                background_clicked,
            ),
            final(value)@ == frame_step(old(self)@, old(value)@, shift, interactions@, travels@),
            final(value).wf(),
            old(self).wf() ==> final(self).wf(),
    {
        if self.current_tile >= value.rules.len() {
            return Ghost(
                match given {
                    Some(lengths) => lengths@,
                    None => Seq::new(interactions@.len(), |k: int| 0u32),
                },
            );
        }
        let ghost m = frame_begun(self@);
        let ghost step = value@;
        let ghost tile = self.current_tile as int;
        self.last_snap_point = None;
        let rule = &value.rules[self.current_tile];
        assert(step.rules[tile].result == rule.result@);
        let mut current_rule: Vec<TilePlacement> = Vec::new();
        let mut c: usize = 0;
        while c < rule.result.len()
            invariant
                c <= rule.result.len(),
                current_rule@ == rule.result@.take(c as int),
            decreases rule.result.len() - c,
        {
            current_rule.push(rule.result[c]);
            c += 1;
            assert(current_rule@ == rule.result@.take(c as int));
        }
        assert(rule.result@.take(c as int) == rule.result@);
        let ghost mut travels: Seq<u32> = Seq::empty();
        let mut i: usize = 0;
        assert(interactions@.take(0) == Seq::<Interaction>::empty());
        while i < interactions.len()
            invariant
                i <= interactions.len(),
                value.wf(),
                state_valid(m) ==> self.wf(),
                tile == m.current_tile,
                tile < step.rules.len(),
                current_rule@ == step.rules[tile].result,
                self@.current_tile == m.current_tile,
                value@.rules.len() == step.rules.len(),
                value@.rules[tile].result.len() == current_rule@.len(),
                travels.len() == i,
                given matches Some(lengths) ==> lengths@.len() == interactions@.len() && travels
                    == lengths@.take(i as int),
                self@ == interactions_state(
                    m,
                    step,
                    current_rule@,
                    interactions@.take(i as int),
                    travels,
                    shift,
                ),
                value@ == interactions_step(
                    m,
                    step,
                    current_rule@,
                    interactions@.take(i as int),
                    travels,
                    shift,
                ),
            decreases interactions.len() - i,
        {
            let e = interactions[i];
            let travel = match given {
                Some(lengths) => lengths[i],
                None => match e {
                    Interaction::Dragged { pointer } => self.travel_to(pointer),
                    _ => 0,
                },
            };
            proof {
                assert(interactions@.take(i + 1).drop_last() == interactions@.take(i as int));
                assert(interactions@.take(i + 1).last() == e);
                assert(travels.push(travel).drop_last() == travels);
                match given {
                    Some(lengths) => {
                        assert(lengths@.take(i + 1) == lengths@.take(i as int).push(lengths@[i as int]));
                    },
                    None => {},
                }
            }
            self.interact(value, &current_rule, e, travel, shift);
            proof {
                travels = travels.push(travel);
            }
            i += 1;
        }
        assert(interactions@.take(i as int) == interactions@);
        proof {
            match given {
                Some(lengths) => {
                    assert(lengths@.take(i as int) == lengths@);
                },
                None => {},
            }
        }
        if background_clicked && interactions.len() == 0 {
            self.selection = Selection::Nothing;
        }
        Ghost(travels)
    }

    /// One frame of the editor: the interactions in their order, then the
    /// click on the background, if there was one and nothing else was
    /// clicked or dragged. A frame whose rule is not in the rule set changes
    /// nothing. The way of each frame of dragging is measured, and the frame
    /// is that of `display_measured` for the lengths that the measure gave.
    pub fn display_shapes(
        &mut self,
        value: &mut TilingStep,
        shift: bool,
        interactions: &Vec<Interaction>,
        background_clicked: bool,
    )
        requires
            old(value).wf(),
        ensures
            exists|travels: Seq<u32>|
                {
                    &&& travels.len() == interactions@.len()
                    &&& final(self)@ == #[trigger] frame_state(
                        old(self)@,
                        old(value)@,
                        shift,
                        interactions@,
                        travels,
                        background_clicked,
                    )
                    &&& final(value)@ == frame_step(old(self)@, old(value)@, shift, interactions@, travels)
                },
            final(value).wf(),
            old(self).wf() ==> final(self).wf(),
    {
        let _ = self.play(value, shift, interactions, None, background_clicked);
    }

    /// One frame of the editor, for which the way of each interaction has
    /// been measured: the `k`-th of `travels` is how far the `k`-th
    /// interaction found the pointer from where the press began. It counts
    /// for a frame of dragging only.
    pub fn display_measured(
        &mut self,
        value: &mut TilingStep,
        shift: bool,
        interactions: &Vec<Interaction>,
        travels: &Vec<u32>,
        background_clicked: bool,
    )
        requires
            old(value).wf(),
            travels@.len() == interactions@.len(),
        ensures
            final(self)@ == frame_state(
                old(self)@,
                old(value)@,
                shift,
                interactions@,
                travels@,
                background_clicked,
            ),
            final(value)@ == frame_step(old(self)@, old(value)@, shift, interactions@, travels@),
            final(value).wf(),
            old(self).wf() ==> final(self).wf(),
    {
        let _ = self.play(value, shift, interactions, Some(travels), background_clicked);
    }
}

/// What a frame of the editor window brings: whether another rule was
/// chosen, the view as the frame laid it out, and what the pointer did.
pub struct Frame {
    /// Whether `current_tile` was set to another rule in this frame.
    pub rule_changed: bool,
    pub draw_transform: RectTransform,
    /// Whether shift is held.
    pub shift: bool,
    pub interactions: Vec<Interaction>,
    /// Whether the background of the rule was clicked.
    pub background_clicked: bool,
}

/// Whether a rule set and the rule that is edited can be shown: the rule is
/// one of the rule set, and the rule set refers to its own tiles only.
pub open spec fn can_show(m: EditorModel, step: StepModel) -> bool {
    m.current_tile < step.rules.len() && rules_closed(step.rules)
}

/// The state as the window hands it to the frame: a change of rule empties
/// the selection, and the view is that of the frame.
pub open spec fn window_laid_out(m: EditorModel, rule_changed: bool, draw_transform: RectTransform) -> EditorModel {
    EditorModel {
        selection: if rule_changed {
            SelectionModel::Nothing
        } else {
            m.selection
        },
        draw_transform,
        ..m
    }
}

impl WindowState {
    /// Whether the rule that is edited is one of `value`, and `value` refers
    /// to its own tiles only.
    pub fn shows(&self, value: &TilingStep) -> (ok: bool)
        ensures
            ok == can_show(self@, value@),
    {
        self.current_tile < value.rules.len() && value.is_well_formed()
    }

    /// One frame of the editor window. A change of rule empties the
    /// selection, the view is taken over from the frame, and the frame is
    /// played on the rule that is edited, as `display_shapes` does. Where
    /// that rule is not in the rule set, or the rule set refers to tiles it
    /// does not have, nothing is shown and the interactions are left aside:
    /// the result says which.
    pub fn tiling_editor_window(&mut self, value: &mut TilingStep, frame: &Frame) -> (shown: bool)
        ensures
            shown == can_show(old(self)@, old(value)@),
            shown ==> exists|travels: Seq<u32>|
                {
                    &&& travels.len() == frame.interactions@.len()
                    &&& final(self)@ == #[trigger] frame_state(
                        window_laid_out(old(self)@, frame.rule_changed, frame.draw_transform),
                        old(value)@,
                        frame.shift,
                        frame.interactions@,
                        travels,
                        frame.background_clicked,
                    )
                    &&& final(value)@ == frame_step(
                        window_laid_out(old(self)@, frame.rule_changed, frame.draw_transform),
                        old(value)@,
                        frame.shift,
                        frame.interactions@,
                        travels,
                    )
                },
            !shown ==> final(self)@ == window_laid_out(
                old(self)@,
                frame.rule_changed,
                frame.draw_transform,
            ),
            !shown ==> final(value)@ == old(value)@,
            old(self).wf() ==> final(self).wf(),
    {
        if frame.rule_changed {
            self.selection = Selection::Nothing;
        }
        self.draw_transform = frame.draw_transform;
        if !self.shows(value) {
            return false;
        }
        self.display_shapes(value, frame.shift, &frame.interactions, frame.background_clicked);
        true
    }
}

} // verus!
