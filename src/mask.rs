//! Rendering an occupancy grid as a black and white mask.
use vstd::prelude::*;
use crate::threshold::threshold_spec;

verus! {

/// The brightness of one mask sample: white for an active cell, black
/// otherwise.
pub open spec fn shade(active: bool) -> u8 {
    if active {
        255
    } else {
        0
    }
}

/// The mask of an occupancy grid.
pub open spec fn mask_spec(g: Seq<Seq<bool>>) -> Seq<Seq<u8>> {
    g.map_values(|col: Seq<bool>| col.map_values(|b: bool| shade(b)))
}

/// Renders `stars` as a luminance grid of the same shape: 255 where a cell
/// is active, 0 elsewhere.
pub fn render_mask(stars: &Vec<Vec<bool>>) -> (r: Vec<Vec<u8>>)
    ensures
        r.deep_view() == mask_spec(stars.deep_view()),
{
    let mut out: Vec<Vec<u8>> = Vec::new();
    let mut x: usize = 0;
    while x < stars.len()
        invariant
            x <= stars@.len(),
            out.deep_view() == mask_spec(stars.deep_view()).take(x as int),
        decreases stars@.len() - x,
    {
        let src = &stars[x];
        let mut col: Vec<u8> = Vec::new();
        let mut y: usize = 0;
        while y < src.len()
            invariant
                y <= src@.len(),
                col@ == src@.take(y as int).map_values(|b: bool| shade(b)),
            decreases src@.len() - y,
        {
            let v: u8 = if src[y] { 255 } else { 0 };
            col.push(v);
            y += 1;
            assert(col@ =~= src@.take(y as int).map_values(|b: bool| shade(b)));
        }
        assert(src@.take(y as int) =~= src@);
        assert(col.deep_view() =~= col@);
        assert(src.deep_view() =~= src@);
        let ghost before = out.deep_view();
        out.push(col);
        assert(out.deep_view() =~= before.push(col.deep_view()));
        x += 1;
        assert(out.deep_view() =~= mask_spec(stars.deep_view()).take(x as int));
    }
    assert(out.deep_view() =~= mask_spec(stars.deep_view()));
    out
}

/// Thresholding a rendered mask at any sensitivity below 255 gives back
/// the occupancy grid it was rendered from.
pub proof fn lemma_mask_round_trip(g: Seq<Seq<bool>>, sensitivity: u8)
    requires
        sensitivity < 255,
    ensures
        threshold_spec(mask_spec(g), sensitivity) == g,
{
    let t = threshold_spec(mask_spec(g), sensitivity);
    assert forall|x: int| 0 <= x < g.len() implies #[trigger] t[x] =~= g[x] by {}
    assert(t =~= g);
}

} // verus!
