//! Turning luminance samples into an occupancy grid.
use vstd::prelude::*;

verus! {

/// The occupancy of one sample: active when it is strictly brighter than
/// the sensitivity.
pub open spec fn above(v: u8, sensitivity: u8) -> bool {
    v > sensitivity
}

/// The occupancy grid of a luminance grid.
pub open spec fn threshold_spec(g: Seq<Seq<u8>>, sensitivity: u8) -> Seq<Seq<bool>> {
    g.map_values(|col: Seq<u8>| col.map_values(|v: u8| above(v, sensitivity)))
}

/// Whether one luminance sample is active at the given sensitivity.
pub fn is_white(value: u8, sensitivity: u8) -> (r: bool)
    ensures
        r == above(value, sensitivity),
{
    value > sensitivity
}

/// Thresholds every sample of a luminance grid.
pub fn threshold(intensity: &Vec<Vec<u8>>, sensitivity: u8) -> (r: Vec<Vec<bool>>)
    ensures
        r.deep_view() == threshold_spec(intensity.deep_view(), sensitivity),
{
    let mut out: Vec<Vec<bool>> = Vec::new();
    let mut x: usize = 0;
    while x < intensity.len()
        invariant
            x <= intensity@.len(),
            out.deep_view() == threshold_spec(intensity.deep_view(), sensitivity).take(x as int),
        decreases intensity@.len() - x,
    {
        let src = &intensity[x];
        let mut col: Vec<bool> = Vec::new();
        let mut y: usize = 0;
        while y < src.len()
            invariant
                y <= src@.len(),
                col@ == src@.take(y as int).map_values(|v: u8| above(v, sensitivity)),
            decreases src@.len() - y,
        {
            col.push(is_white(src[y], sensitivity));
            y += 1;
            assert(col@ =~= src@.take(y as int).map_values(|v: u8| above(v, sensitivity)));
        }
        assert(src@.take(y as int) =~= src@);
        assert(col.deep_view() =~= col@);
        assert(src.deep_view() =~= src@);
        let ghost before = out.deep_view();
        out.push(col);
        assert(out.deep_view() =~= before.push(col.deep_view()));
        x += 1;
        assert(out.deep_view() =~= threshold_spec(intensity.deep_view(), sensitivity).take(x as int));
    }
    assert(out.deep_view() =~= threshold_spec(intensity.deep_view(), sensitivity));
    out
}

} // verus!
