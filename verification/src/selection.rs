//! What is selected in the rule that the editor shows: nothing, some corners
//! of one placement, or some placements. A click replaces the selection; a
//! click with shift held adds to it what was clicked, or takes it out.
//!
//! The selection is a set that remembers the order in which it was made: it
//! is kept as a list in which nothing stands twice.

use vstd::prelude::*;

verus! {

/// The selection. Corners are given by their index in the tile of the
/// placement `shape`, placements by their index in the rule.
pub enum Selection {
    Nothing,
    Points { shape: usize, corners: Vec<usize> },
    Shapes { shapes: Vec<usize> },
}

/// The selection as the contracts see it.
pub ghost enum SelectionModel {
    Nothing,
    Points { shape: usize, corners: Seq<usize> },
    Shapes { shapes: Seq<usize> },
}

impl View for Selection {
    type V = SelectionModel;

    open spec fn view(&self) -> SelectionModel {
        match self {
            Selection::Nothing => SelectionModel::Nothing,
            Selection::Points { shape, corners } => SelectionModel::Points {
                shape: *shape,
                corners: corners@,
            },
            Selection::Shapes { shapes } => SelectionModel::Shapes { shapes: shapes@ },
        }
    }
}

/// `items` without each occurrence of `item`, the rest in their order.
pub open spec fn without(items: Seq<usize>, item: usize) -> Seq<usize>
    decreases items.len(),
{
    if items.len() == 0 {
        items
    } else if items.last() == item {
        without(items.drop_last(), item)
    } else {
        without(items.drop_last(), item).push(items.last())
    }
}

/// `items` with `item` added at the end if it was not among them, and taken
/// out if it was.
pub open spec fn toggled(items: Seq<usize>, item: usize) -> Seq<usize> {
    if items.contains(item) {
        without(items, item)
    } else {
        items.push(item)
    }
}

/// Whether a selection is a set: no corner and no placement is in it twice.
pub open spec fn selection_valid(selection: SelectionModel) -> bool {
    match selection {
        SelectionModel::Nothing => true,
        SelectionModel::Points { shape, corners } => corners.no_duplicates(),
        SelectionModel::Shapes { shapes } => shapes.no_duplicates(),
    }
}

/// Whether the placement `tile` is selected.
pub open spec fn shape_selected(selection: SelectionModel, tile: usize) -> bool {
    match selection {
        SelectionModel::Shapes { shapes } => shapes.contains(tile),
        _ => false,
    }
}

/// Whether the corner `corner` of the placement `shape` is selected.
pub open spec fn corner_selected(selection: SelectionModel, shape: usize, corner: usize) -> bool {
    match selection {
        SelectionModel::Points { shape: selected, corners } => selected == shape && corners.contains(
            corner,
        ),
        _ => false,
    }
}

/// The selection after a click on the corner `corner` of the placement
/// `shape`. Corners of two placements are never selected together: a click
/// on another placement starts over, with or without shift.
pub open spec fn corner_clicked(
    selection: SelectionModel,
    shape: usize,
    corner: usize,
    shift: bool,
) -> SelectionModel {
    match selection {
        SelectionModel::Points { shape: selected, corners } if shift && selected == shape =>
            SelectionModel::Points { shape, corners: toggled(corners, corner) },
        _ => SelectionModel::Points { shape, corners: seq![corner] },
    }
}

/// The selection after a click on the placement `tile`. Taking out the last
/// placement leaves nothing selected.
pub open spec fn shape_clicked(selection: SelectionModel, tile: usize, shift: bool) -> SelectionModel {
    match selection {
        SelectionModel::Shapes { shapes } if shift => {
            let rest = toggled(shapes, tile);
            if rest.len() > 0 {
                SelectionModel::Shapes { shapes: rest }
            } else {
                SelectionModel::Nothing
            }
        },
        _ => SelectionModel::Shapes { shapes: seq![tile] },
    }
}

/// Whether the index `i` is one of `items`.
pub open spec fn among(items: Seq<usize>, i: int) -> bool {
    exists|k: int| 0 <= k < items.len() && #[trigger] items[k] == i
}

/// Whether each of `items` is below `count`.
pub open spec fn all_below(items: Seq<usize>, count: nat) -> bool {
    forall|k: int| 0 <= k < items.len() ==> (#[trigger] items[k]) < count
}

/// Whether each selected placement has an index below `count`.
pub open spec fn shapes_below(selection: SelectionModel, count: nat) -> bool {
    match selection {
        SelectionModel::Shapes { shapes } => all_below(shapes, count),
        _ => true,
    }
}

/// What is left of `items` holds every other item and no `item`.
pub proof fn lemma_without_contains(items: Seq<usize>, item: usize, other: usize)
    ensures
        without(items, item).contains(other) <==> items.contains(other) && other != item,
    decreases items.len(),
{
    if items.len() > 0 {
        let before = items.drop_last();
        lemma_without_contains(before, item, other);
        let rest = without(before, item);
        if items.contains(other) && other != item {
            let i = choose|i: int| 0 <= i < items.len() && items[i] == other;
            if i < before.len() {
                assert(before[i] == other);
                assert(before.contains(other));
                let j = choose|j: int| 0 <= j < rest.len() && rest[j] == other;
                assert(without(items, item)[j] == other);
            } else {
                assert(without(items, item).last() == other);
            }
        }
        if without(items, item).contains(other) {
            let j = choose|j: int| 0 <= j < without(items, item).len() && without(items, item)[j] == other;
            if j < rest.len() {
                assert(rest[j] == other);
                assert(rest.contains(other));
                let i = choose|i: int| 0 <= i < before.len() && before[i] == other;
                assert(items[i] == other);
            } else {
                assert(items.last() == other);
            }
        }
    }
}

/// Taking an item out of items that are all different leaves items that are
/// all different.
pub proof fn lemma_without_no_duplicates(items: Seq<usize>, item: usize)
    requires
        items.no_duplicates(),
    ensures
        without(items, item).no_duplicates(),
    decreases items.len(),
{
    if items.len() > 0 {
        let before = items.drop_last();
        let rest = without(before, item);
        assert(before.no_duplicates());
        lemma_without_no_duplicates(before, item);
        if items.last() != item {
            lemma_without_contains(before, item, items.last());
            assert(!before.contains(items.last())) by {
                if before.contains(items.last()) {
                    let i = choose|i: int| 0 <= i < before.len() && before[i] == items.last();
                    assert(items[i] == items[items.len() - 1]);
                }
            }
            assert forall|i: int, j: int|
                0 <= i < rest.push(items.last()).len() && 0 <= j < rest.push(items.last()).len() && i
                    != j implies rest.push(items.last())[i] != rest.push(items.last())[j] by {
                if i < rest.len() && j == rest.len() {
                    assert(rest.contains(rest[i]));
                }
                if j < rest.len() && i == rest.len() {
                    assert(rest.contains(rest[j]));
                }
            }
        }
    }
}

/// Adding an item to, or taking it out of, items that are all different
/// leaves items that are all different.
pub proof fn lemma_toggled_no_duplicates(items: Seq<usize>, item: usize)
    requires
        items.no_duplicates(),
    ensures
        toggled(items, item).no_duplicates(),
{
    if items.contains(item) {
        lemma_without_no_duplicates(items, item);
    } else {
        let more = items.push(item);
        assert forall|i: int, j: int| 0 <= i < more.len() && 0 <= j < more.len() && i != j implies more[i]
            != more[j] by {
            if i < items.len() && j == items.len() {
                assert(items.contains(items[i]));
            }
            if j < items.len() && i == items.len() {
                assert(items.contains(items[j]));
            }
        }
    }
}

/// No click selects a corner or a placement twice: a valid selection is
/// valid after a click.
pub proof fn lemma_click_keeps_valid(selection: SelectionModel, index: usize, corner: usize, shift: bool)
    requires
        selection_valid(selection),
    ensures
        selection_valid(shape_clicked(selection, index, shift)),
        selection_valid(corner_clicked(selection, index, corner, shift)),
{
    match selection {
        SelectionModel::Shapes { shapes } => {
            lemma_toggled_no_duplicates(shapes, index);
        },
        SelectionModel::Points { shape, corners } => {
            lemma_toggled_no_duplicates(corners, corner);
        },
        _ => {},
    }
    assert(seq![index].no_duplicates());
    assert(seq![corner].no_duplicates());
}

/// A click with shift on one of several selected placements takes out that
/// one and keeps the others; a click with shift on another one adds it.
pub proof fn lemma_shift_click_toggles(shapes: Seq<usize>, tile: usize, other: usize)
    requires
        other != tile,
    ensures
        shape_selected(shape_clicked(SelectionModel::Shapes { shapes }, tile, true), tile)
            <==> !shapes.contains(tile),
        shape_selected(shape_clicked(SelectionModel::Shapes { shapes }, tile, true), other)
            <==> shapes.contains(other),
{
    lemma_without_contains(shapes, tile, tile);
    lemma_without_contains(shapes, tile, other);
    let rest = toggled(shapes, tile);
    if shapes.contains(tile) {
        if rest.len() == 0 {
            assert(!rest.contains(other));
        }
    } else {
        assert(rest.last() == tile);
        if shapes.contains(other) {
            let i = choose|i: int| 0 <= i < shapes.len() && shapes[i] == other;
            assert(rest[i] == other);
        }
        if rest.contains(other) {
            let j = choose|j: int| 0 <= j < rest.len() && rest[j] == other;
            assert(shapes[j] == other);
        }
    }
}

/// Whether `item` is among `items`.
pub fn contains(items: &Vec<usize>, item: usize) -> (found: bool)
    ensures
        found == items@.contains(item),
        found == among(items@, item as int),
{
    let mut i: usize = 0;
    while i < items.len()
        invariant
            i <= items.len(),
            forall|j: int| 0 <= j < i ==> items@[j] != item,
        decreases items.len() - i,
    {
        if items[i] == item {
            return true;
        }
        i += 1;
    }
    false
}

/// Whether the items are all different.
pub fn all_different(items: &Vec<usize>) -> (ok: bool)
    ensures
        ok == items@.no_duplicates(),
{
    let mut i: usize = 0;
    while i < items.len()
        invariant
            i <= items.len(),
            forall|a: int, b: int| 0 <= a < i && 0 <= b < items@.len() && a != b ==> items@[a] != items@[b],
        decreases items.len() - i,
    {
        let mut j: usize = 0;
        while j < items.len()
            invariant
                i < items.len(),
                j <= items.len(),
                forall|b: int| 0 <= b < j && i != b ==> items@[i as int] != items@[b],
            decreases items.len() - j,
        {
            if i != j && items[i] == items[j] {
                return false;
            }
            j += 1;
        }
        i += 1;
    }
    true
}

/// Whether each of `items` is below `count`.
pub fn below(items: &Vec<usize>, count: usize) -> (ok: bool)
    ensures
        ok == all_below(items@, count as nat),
{
    let mut k: usize = 0;
    while k < items.len()
        invariant
            k <= items.len(),
            forall|j: int| 0 <= j < k ==> (#[trigger] items@[j]) < count,
        decreases items.len() - k,
    {
        if items[k] >= count {
            assert(!(items@[k as int] < count));
            return false;
        }
        k += 1;
    }
    true
}

/// `items` without each occurrence of `item`.
pub fn remove(items: &Vec<usize>, item: usize) -> (rest: Vec<usize>)
    ensures
        rest@ == without(items@, item),
{
    let mut rest: Vec<usize> = Vec::new();
    let mut i: usize = 0;
    assert(items@.take(0) == Seq::<usize>::empty());
    while i < items.len()
        invariant
            i <= items.len(),
            rest@ == without(items@.take(i as int), item),
        decreases items.len() - i,
    {
        assert(items@.take(i + 1).drop_last() == items@.take(i as int));
        if items[i] != item {
            rest.push(items[i]);
        }
        i += 1;
    }
    assert(items@.take(i as int) == items@);
    rest
}

/// `items` with `item` added at the end if it was not among them, and taken
/// out if it was.
pub fn toggle(items: &Vec<usize>, item: usize) -> (result: Vec<usize>)
    ensures
        result@ == toggled(items@, item),
{
    if contains(items, item) {
        remove(items, item)
    } else {
        let mut result: Vec<usize> = Vec::new();
        let mut i: usize = 0;
        while i < items.len()
            invariant
                i <= items.len(),
                result@ == items@.take(i as int),
            decreases items.len() - i,
        {
            result.push(items[i]);
            i += 1;
            assert(result@ == items@.take(i as int));
        }
        assert(items@.take(i as int) == items@);
        result.push(item);
        result
    }
}

impl Selection {
    /// Whether the placement `tile` is selected.
    pub fn has_shape(&self, tile: usize) -> (selected: bool)
        ensures
            selected == shape_selected(self@, tile),
    {
        match self {
            Selection::Shapes { shapes } => contains(shapes, tile),
            _ => false,
        }
    }

    /// Whether the corner `corner` of the placement `shape` is selected.
    pub fn has_corner(&self, shape: usize, corner: usize) -> (selected: bool)
        ensures
            selected == corner_selected(self@, shape, corner),
    {
        match self {
            Selection::Points { shape: selected, corners } => *selected == shape && contains(
                corners,
                corner,
            ),
            _ => false,
        }
    }

    /// The selection after a click on the corner `corner` of the placement
    /// `shape`.
    pub fn click_corner(&self, shape: usize, corner: usize, shift: bool) -> (next: Selection)
        ensures
            next@ == corner_clicked(self@, shape, corner, shift),
            selection_valid(self@) ==> selection_valid(next@),
    {
        proof {
            if selection_valid(self@) {
                lemma_click_keeps_valid(self@, shape, corner, shift);
            }
        }
        match self {
            Selection::Points { shape: selected, corners } if shift && *selected == shape => {
                Selection::Points { shape, corners: toggle(corners, corner) }
            },
            _ => {
                let mut corners: Vec<usize> = Vec::new();
                corners.push(corner);
                assert(corners@ == seq![corner]);
                Selection::Points { shape, corners }
            },
        }
    }

    /// The selection after a click on the placement `tile`.
    pub fn click_shape(&self, tile: usize, shift: bool) -> (next: Selection)
        ensures
            next@ == shape_clicked(self@, tile, shift),
            selection_valid(self@) ==> selection_valid(next@),
    {
        proof {
            if selection_valid(self@) {
                lemma_click_keeps_valid(self@, tile, 0, shift);
            }
        }
        match self {
            Selection::Shapes { shapes } if shift => {
                let rest = toggle(shapes, tile);
                if rest.len() > 0 {
                    Selection::Shapes { shapes: rest }
                } else {
                    Selection::Nothing
                }
            },
            _ => {
                let mut shapes: Vec<usize> = Vec::new();
                shapes.push(tile);
                assert(shapes@ == seq![tile]);
                Selection::Shapes { shapes }
            },
        }
    }

    /// Whether the selection is a set: nothing is in it twice.
    pub fn is_valid(&self) -> (ok: bool)
        ensures
            ok == selection_valid(self@),
    {
        match self {
            Selection::Nothing => true,
            Selection::Points { shape: _, corners } => all_different(corners),
            Selection::Shapes { shapes } => all_different(shapes),
        }
    }

    /// Whether each selected placement has an index below `count`.
    pub fn below(&self, count: usize) -> (ok: bool)
        ensures
            ok == shapes_below(self@, count as nat),
    {
        match self {
            Selection::Shapes { shapes } => below(shapes, count),
            _ => true,
        }
    }
}

} // verus!
