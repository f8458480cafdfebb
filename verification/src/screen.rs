//! The screen side of the editor, as `egui` provides it: pointer positions,
//! and the map between the coordinates of a rule and those of the screen.
//!
//! As in `geometry`, the values are carried through as they are, each
//! operation is a call into `egui`, and every contract of such a call is
//! taken on trust from `egui`'s source. The result of a call has a name here
//! where the same values give the same result wherever the program runs.

use egui::emath::RectTransform;
use egui::Pos2;
use vstd::prelude::*;

verus! {

// The types of `egui` that this crate's signatures and fields hold. Nothing
// inside a value of them is visible to the proofs.
#[verifier::external_type_specification]
#[verifier::external_body]
pub struct ExRectTransform(egui::emath::RectTransform);

#[verifier::external_type_specification]
#[verifier::external_body]
pub struct ExPos2(egui::Pos2);

#[verifier::external_type_specification]
#[verifier::external_body]
pub struct ExScreenVec2(egui::Vec2);

/// The map that undoes `view`.
pub uninterp spec fn view_inverse(view: RectTransform) -> RectTransform;

/// The image of `p` under `view`.
pub uninterp spec fn view_image(view: RectTransform, p: Pos2) -> Pos2;

/// The way from `from` to `to`: `to - from`.
pub uninterp spec fn pointer_travel(to: Pos2, from: Pos2) -> egui::Vec2;

/// The bit pattern of the float infinity. The patterns of the floats that
/// are not negative lie at or below it, in the order of the floats; the
/// patterns above it, without the sign bit, belong to no number.
pub const INFINITE: u32 = 0x7F80_0000;

/// The place of a float that is not negative among such floats, given its bit
/// pattern: the pattern itself for a number, with infinity the largest of
/// them, and one and the same place above them all for what is no number.
pub open spec fn rank(bits: u32) -> u32 {
    if bits > INFINITE {
        u32::MAX
    } else {
        bits
    }
}

/// The place of a float that is not negative among such floats.
pub fn rank_of(bits: u32) -> (place: u32)
    ensures
        place == rank(bits),
{
    if bits > INFINITE {
        u32::MAX
    } else {
        bits
    }
}

/// `v` with its two coordinates widened to doubles.
pub uninterp spec fn model_vector(v: egui::Vec2) -> kurbo::Vec2;

/// `egui`'s `RectTransform::inverse`. Trusted: the result is the map the
/// crate names `view_inverse`.
#[verifier::external_body]
pub(crate) fn inverse(view: &RectTransform) -> (back: RectTransform)
    ensures
        back == view_inverse(*view),
{
    view.inverse()
}

/// `egui`'s `RectTransform::transform_pos`. Trusted: the result is the
/// position the crate names `view_image`.
///
/// `egui` asserts that the view does not start from a rectangle without
/// extent only where its extra assertions are switched on, which they are not
/// by default. Without them such a view maps every position to no number.
#[verifier::external_body]
pub(crate) fn transform_pos(view: &RectTransform, p: &Pos2) -> (image: Pos2)
    ensures
        image == view_image(*view, *p),
{
    view.transform_pos(*p)
}

/// `egui`'s `Sub for Pos2`. Trusted: the result is the vector the crate names
/// `pointer_travel`.
#[verifier::external_body]
pub(crate) fn way(to: &Pos2, from: &Pos2) -> (v: egui::Vec2)
    ensures
        v == pointer_travel(*to, *from),
{
    *to - *from
}

/// `egui`'s `Vec2::length`, handed out as the bit pattern of the float.
///
/// Nothing is promised of the result. `egui` takes the length from `hypot`,
/// whose last digit std leaves to the platform and to the run, so that the
/// crate gives the length of a way no name: what is done with a length is
/// stated for every length that may come back.
#[verifier::external_body]
pub(crate) fn length(v: &egui::Vec2) -> u32 {
    v.length().to_bits()
}

/// The vector of `kurbo` with the coordinates of `p`, each widened by `into`.
/// Trusted: the result is the vector the crate names `model_vector`.
#[verifier::external_body]
pub(crate) fn to_tile_vec(p: &egui::Vec2) -> (v: kurbo::Vec2)
    ensures
        v == model_vector(*p),
{
    kurbo::Vec2 { x: p.x.into(), y: p.y.into() }
}

/// `egui`'s `Pos2::ZERO`, the origin of the screen.
#[verifier::external_body]
pub(crate) fn origin() -> Pos2 {
    Pos2::ZERO
}

/// `egui`'s `RectTransform::identity` on `Rect::ZERO`: the map that a state
/// holds until the editor has been laid out once.
#[verifier::external_body]
pub(crate) fn unset_view() -> RectTransform {
    RectTransform::identity(egui::Rect::ZERO)
}

} // verus!
