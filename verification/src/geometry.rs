use vstd::prelude::*;

use crate::error::CaptureError;

verus! {

/// Left edge of a monitor `(x, y, width, height)`.
pub open spec fn left(m: (i32, i32, u32, u32)) -> int {
    m.0 as int
}

/// Top edge of a monitor `(x, y, width, height)`.
pub open spec fn top(m: (i32, i32, u32, u32)) -> int {
    m.1 as int
}

/// Right edge (exclusive) of a monitor `(x, y, width, height)`. The width is
/// taken as an `i32`, as the desktop arithmetic takes it: one over `i32::MAX`
/// wraps around to a negative number.
pub open spec fn right(m: (i32, i32, u32, u32)) -> int {
    m.0 + (m.2 as i32)
}

/// Bottom edge (exclusive) of a monitor `(x, y, width, height)`, with the
/// height taken as an `i32` in the same way.
pub open spec fn bottom(m: (i32, i32, u32, u32)) -> int {
    m.1 + (m.3 as i32)
}

pub open spec fn min_left(ms: Seq<(i32, i32, u32, u32)>) -> int
    recommends
        ms.len() > 0,
    decreases ms.len(),
{
    if ms.len() <= 1 {
        left(ms[0])
    } else {
        let r = min_left(ms.drop_last());
        if left(ms.last()) < r { left(ms.last()) } else { r }
    }
}

pub open spec fn min_top(ms: Seq<(i32, i32, u32, u32)>) -> int
    recommends
        ms.len() > 0,
    decreases ms.len(),
{
    if ms.len() <= 1 {
        top(ms[0])
    } else {
        let r = min_top(ms.drop_last());
        if top(ms.last()) < r { top(ms.last()) } else { r }
    }
}

pub open spec fn max_right(ms: Seq<(i32, i32, u32, u32)>) -> int
    recommends
        ms.len() > 0,
    decreases ms.len(),
{
    if ms.len() <= 1 {
        right(ms[0])
    } else {
        let r = max_right(ms.drop_last());
        if right(ms.last()) > r { right(ms.last()) } else { r }
    }
}

pub open spec fn max_bottom(ms: Seq<(i32, i32, u32, u32)>) -> int
    recommends
        ms.len() > 0,
    decreases ms.len(),
{
    if ms.len() <= 1 {
        bottom(ms[0])
    } else {
        let r = max_bottom(ms.drop_last());
        if bottom(ms.last()) > r { bottom(ms.last()) } else { r }
    }
}

/// Each monitor's far edges can be computed in `i32`, as the bounding box
/// computation does.
pub open spec fn edges_fit_i32(ms: Seq<(i32, i32, u32, u32)>) -> bool {
    forall|i: int|
        #![trigger ms[i]]
        0 <= i < ms.len() ==> {
            &&& i32::MIN <= right(ms[i]) <= i32::MAX
            &&& i32::MIN <= bottom(ms[i]) <= i32::MAX
        }
}

/// The bounding box's width and height can be computed in `i32` (they are then
/// read as `u32`).
pub open spec fn extent_fits_i32(ms: Seq<(i32, i32, u32, u32)>) -> bool {
    &&& i32::MIN <= max_right(ms) - min_left(ms) <= i32::MAX
    &&& i32::MIN <= max_bottom(ms) - min_top(ms) <= i32::MAX
}

/// The box `(min_x, min_y, width, height)` that spans all monitors.
pub open spec fn bounds_spec(ms: Seq<(i32, i32, u32, u32)>) -> (int, int, int, int) {
    (min_left(ms), min_top(ms), max_right(ms) - min_left(ms), max_bottom(ms) - min_top(ms))
}

proof fn lemma_extremes(ms: Seq<(i32, i32, u32, u32)>)
    requires
        ms.len() > 0,
    ensures
        forall|i: int|
            #![trigger ms[i]]
            0 <= i < ms.len() ==> min_left(ms) <= left(ms[i]) && min_top(ms) <= top(ms[i])
                && right(ms[i]) <= max_right(ms) && bottom(ms[i]) <= max_bottom(ms),
        exists|i: int| 0 <= i < ms.len() && min_left(ms) == left(#[trigger] ms[i]),
        exists|i: int| 0 <= i < ms.len() && min_top(ms) == top(#[trigger] ms[i]),
        exists|i: int| 0 <= i < ms.len() && max_right(ms) == right(#[trigger] ms[i]),
        exists|i: int| 0 <= i < ms.len() && max_bottom(ms) == bottom(#[trigger] ms[i]),
    decreases ms.len(),
{
    if ms.len() > 1 {
        let p = ms.drop_last();
        lemma_extremes(p);
        assert forall|i: int|
            #![trigger ms[i]]
            0 <= i < ms.len() implies min_left(ms) <= left(ms[i]) && min_top(ms) <= top(ms[i])
            && right(ms[i]) <= max_right(ms) && bottom(ms[i]) <= max_bottom(ms) by {
            if i < ms.len() - 1 {
                assert(ms[i] == p[i]);
            }
        }
        let a = choose|i: int| 0 <= i < p.len() && min_left(p) == left(#[trigger] p[i]);
        let b = choose|i: int| 0 <= i < p.len() && min_top(p) == top(#[trigger] p[i]);
        let c = choose|i: int| 0 <= i < p.len() && max_right(p) == right(#[trigger] p[i]);
        let d = choose|i: int| 0 <= i < p.len() && max_bottom(p) == bottom(#[trigger] p[i]);
        assert(ms[a] == p[a] && ms[b] == p[b] && ms[c] == p[c] && ms[d] == p[d]);
        let l = ms.len() - 1;
        assert(ms[l] == ms.last());
    } else {
        assert(ms[0] == ms[0]);
    }
}

/// Computes the box `(min_x, min_y, total_width, total_height)`, in physical
/// pixels, that spans all the given monitors `(x, y, width, height)`.
/// Fails when there is no monitor. The box is computed in `i32`: a width or
/// height over `i32::MAX` wraps around, and so may the box's extent when it is
/// read back as `u32`.
pub fn monitors_bounds(monitors: &[(i32, i32, u32, u32)]) -> (r: Result<(i32, i32, u32, u32), CaptureError>)
    requires
        edges_fit_i32(monitors@),
        monitors@.len() > 0 ==> extent_fits_i32(monitors@),
    ensures
        monitors@.len() == 0 <==> r is Err,
        r is Err ==> (r matches Err(CaptureError::Capture(e)) && e@ == "No se encontraron pantallas"@),
        r matches Ok(b) ==> {
            let (bx, by, bw, bh) = bounds_spec(monitors@);
            &&& b.0 == bx && b.1 == by
            &&& b.2 == (bw as i32) as u32 && b.3 == (bh as i32) as u32
        },
{
    if monitors.len() == 0 {
        return Err(CaptureError::Capture(String::from_str("No se encontraron pantallas")));
    }
    let ghost ms = monitors@;
    let m0 = monitors[0];
    assert(ms[0] == m0);
    let mut min_x: i32 = m0.0;
    let mut min_y: i32 = m0.1;
    let mut max_x: i32 = m0.0 + m0.2 as i32;
    let mut max_y: i32 = m0.1 + m0.3 as i32;
    let mut i: usize = 1;
    while i < monitors.len()
        invariant
            ms == monitors@,
            1 <= i <= ms.len(),
            edges_fit_i32(ms),
            min_x == min_left(ms.take(i as int)),
            min_y == min_top(ms.take(i as int)),
            max_x == max_right(ms.take(i as int)),
            max_y == max_bottom(ms.take(i as int)),
        decreases ms.len() - i,
    {
        let m = monitors[i];
        assert(ms[i as int] == m);
        assert(ms.take(i + 1).drop_last() =~= ms.take(i as int));
        assert(ms.take(i + 1).last() == m);
        let r = m.0 + m.2 as i32;
        let b = m.1 + m.3 as i32;
        if m.0 < min_x {
            min_x = m.0;
        }
        if m.1 < min_y {
            min_y = m.1;
        }
        if r > max_x {
            max_x = r;
        }
        if b > max_y {
            max_y = b;
        }
        i += 1;
    }
    assert(ms.take(ms.len() as int) =~= ms);
    proof {
        lemma_extremes(ms);
    }
    Ok((min_x, min_y, (max_x - min_x) as u32, (max_y - min_y) as u32))
}

/// Every monitor lies inside the bounding box, and the box touches the
/// outermost monitor on each of its four sides.
pub proof fn lemma_bounds_contain_every_monitor(ms: Seq<(i32, i32, u32, u32)>)
    requires
        ms.len() > 0,
    ensures
        ({
            let (bx, by, bw, bh) = bounds_spec(ms);
            &&& forall|i: int|
                #![trigger ms[i]]
                0 <= i < ms.len() ==> bx <= left(ms[i]) && right(ms[i]) <= bx + bw && by <= top(ms[i])
                    && bottom(ms[i]) <= by + bh
            &&& exists|i: int| 0 <= i < ms.len() && left(#[trigger] ms[i]) == bx
            &&& exists|i: int| 0 <= i < ms.len() && top(#[trigger] ms[i]) == by
            &&& exists|i: int| 0 <= i < ms.len() && right(#[trigger] ms[i]) == bx + bw
            &&& exists|i: int| 0 <= i < ms.len() && bottom(#[trigger] ms[i]) == by + bh
        }),
{
    lemma_extremes(ms);
}

} // verus!

verus! {

pub open spec fn min_u32(a: u32, b: u32) -> u32 {
    if a < b { a } else { b }
}

/// The region that the image crate's `crop_imm` keeps of the requested region
/// `(x, y, width, height)` of an image of size `iw` by `ih`: the origin is
/// clamped into the image, then the size to what is left of it.
pub open spec fn clamp_region(x: u32, y: u32, w: u32, h: u32, iw: u32, ih: u32) -> (u32, u32, u32, u32) {
    let cx = min_u32(x, iw);
    let cy = min_u32(y, ih);
    (cx, cy, min_u32(w, (iw - cx) as u32), min_u32(h, (ih - cy) as u32))
}

/// Clamps the region `(x, y, width, height)` to an image of size `iw` by `ih`.
pub fn clamp_region_to_image(x: u32, y: u32, w: u32, h: u32, iw: u32, ih: u32) -> (r: (u32, u32, u32, u32))
    ensures
        r == clamp_region(x, y, w, h, iw, ih),
        r.0 + r.2 <= iw,
        r.1 + r.3 <= ih,
{
    let cx = if x < iw { x } else { iw };
    let cy = if y < ih { y } else { ih };
    let cw = if w < iw - cx { w } else { iw - cx };
    let ch = if h < ih - cy { h } else { ih - cy };
    (cx, cy, cw, ch)
}

/// Clamping a region that already lies inside the image leaves it unchanged,
/// and clamping twice is clamping once.
pub proof fn lemma_clamp_region_idempotent(x: u32, y: u32, w: u32, h: u32, iw: u32, ih: u32)
    ensures
        x + w <= iw && y + h <= ih ==> clamp_region(x, y, w, h, iw, ih) == (x, y, w, h),
        ({
            let c = clamp_region(x, y, w, h, iw, ih);
            clamp_region(c.0, c.1, c.2, c.3, iw, ih) == c
        }),
{
}

/// One monitor's part of a whole-desktop image: where the monitor is on the
/// desktop, and the region of the image cut out for it.
#[derive(Debug, Clone, Copy, PartialEq, Eq, Structural)]
pub struct CropPlan {
    pub x: i32,
    pub y: i32,
    pub left: u32,
    pub top: u32,
    pub width: u32,
    pub height: u32,
}

/// The region of an `iw` by `ih` desktop image that a monitor `(x, y, w, h)`
/// covers: a negative origin counts as 0, and the region is clamped into the image.
pub open spec fn monitor_region(m: (i32, i32, u32, u32), iw: u32, ih: u32) -> (u32, u32, u32, u32) {
    let x = if m.0 < 0 { 0u32 } else { m.0 as u32 };
    let y = if m.1 < 0 { 0u32 } else { m.1 as u32 };
    clamp_region(x, y, m.2, m.3, iw, ih)
}

pub open spec fn crop_plan_of(m: (i32, i32, u32, u32), iw: u32, ih: u32) -> CropPlan {
    let r = monitor_region(m, iw, ih);
    CropPlan { x: m.0, y: m.1, left: r.0, top: r.1, width: r.2, height: r.3 }
}

/// The monitors' crops, in order, leaving out each monitor whose region in the
/// image is empty.
pub open spec fn crop_plans(ms: Seq<(i32, i32, u32, u32)>, iw: u32, ih: u32) -> Seq<CropPlan>
    decreases ms.len(),
{
    if ms.len() == 0 {
        Seq::empty()
    } else {
        let p = crop_plans(ms.drop_last(), iw, ih);
        let c = crop_plan_of(ms.last(), iw, ih);
        if c.width == 0 || c.height == 0 {
            p
        } else {
            p.push(c)
        }
    }
}

/// A planned crop is the part of monitor `m` that lies in an `iw` by `ih`
/// image: its origin is the monitor's, with a negative coordinate read as 0 and
/// kept within the image, and its width and height are the monitor's, cut down
/// to what is left of the image from that origin.
pub open spec fn crop_of_monitor(p: CropPlan, m: (i32, i32, u32, u32), iw: u32, ih: u32) -> bool {
    let ox: int = if m.0 < 0 { 0 } else { m.0 as int };
    let oy: int = if m.1 < 0 { 0 } else { m.1 as int };
    &&& p.x == m.0 && p.y == m.1
    &&& p.left == (if ox < iw { ox } else { iw as int })
    &&& p.top == (if oy < ih { oy } else { ih as int })
    &&& p.width == (if m.2 < iw - p.left { m.2 as int } else { iw - p.left })
    &&& p.height == (if m.3 < ih - p.top { m.3 as int } else { ih - p.top })
}

/// Every planned crop is the part of one of the monitors that lies in the
/// image; and a monitor that lies wholly inside the image is cut out exactly,
/// at its own place and size.
pub proof fn lemma_crops_are_the_monitors_parts(ms: Seq<(i32, i32, u32, u32)>, iw: u32, ih: u32)
    ensures
        forall|k: int|
            #![trigger crop_plans(ms, iw, ih)[k]]
            0 <= k < crop_plans(ms, iw, ih).len() ==> exists|i: int|
                0 <= i < ms.len() && crop_of_monitor(crop_plans(ms, iw, ih)[k], #[trigger] ms[i], iw, ih),
        forall|i: int|
            #![trigger ms[i]]
            0 <= i < ms.len() && 0 <= ms[i].0 && 0 <= ms[i].1 && ms[i].0 + ms[i].2 <= iw && ms[i].1 + ms[i].3 <= ih
                && ms[i].2 > 0 && ms[i].3 > 0 ==> exists|k: int|
                0 <= k < crop_plans(ms, iw, ih).len() && #[trigger] crop_plans(ms, iw, ih)[k] == (CropPlan {
                    x: ms[i].0,
                    y: ms[i].1,
                    left: ms[i].0 as u32,
                    top: ms[i].1 as u32,
                    width: ms[i].2,
                    height: ms[i].3,
                }),
    decreases ms.len(),
{
    if ms.len() > 0 {
        let prev_ms = ms.drop_last();
        lemma_crops_are_the_monitors_parts(prev_ms, iw, ih);
        let prev = crop_plans(prev_ms, iw, ih);
        let plans = crop_plans(ms, iw, ih);
        let last = ms.len() - 1;
        let m = ms[last];
        assert(m == ms.last());
        assert(crop_of_monitor(crop_plan_of(m, iw, ih), m, iw, ih));
        assert forall|k: int| #![trigger plans[k]] 0 <= k < plans.len() implies exists|i: int|
            0 <= i < ms.len() && crop_of_monitor(plans[k], #[trigger] ms[i], iw, ih) by {
            if k < prev.len() {
                assert(plans[k] == prev[k]);
                let i = choose|i: int| 0 <= i < prev_ms.len() && crop_of_monitor(prev[k], #[trigger] prev_ms[i], iw, ih);
                assert(ms[i] == prev_ms[i]);
            } else {
                assert(plans[k] == crop_plan_of(m, iw, ih));
            }
        }
        assert forall|i: int|
            #![trigger ms[i]]
            0 <= i < ms.len() && 0 <= ms[i].0 && 0 <= ms[i].1 && ms[i].0 + ms[i].2 <= iw && ms[i].1 + ms[i].3 <= ih
                && ms[i].2 > 0 && ms[i].3 > 0 implies exists|k: int|
                0 <= k < plans.len() && #[trigger] plans[k] == (CropPlan {
                    x: ms[i].0,
                    y: ms[i].1,
                    left: ms[i].0 as u32,
                    top: ms[i].1 as u32,
                    width: ms[i].2,
                    height: ms[i].3,
                }) by {
            if i < last {
                assert(ms[i] == prev_ms[i]);
                let k = choose|k: int|
                    0 <= k < prev.len() && #[trigger] prev[k] == (CropPlan {
                        x: prev_ms[i].0,
                        y: prev_ms[i].1,
                        left: prev_ms[i].0 as u32,
                        top: prev_ms[i].1 as u32,
                        width: prev_ms[i].2,
                        height: prev_ms[i].3,
                    });
                assert(plans[k] == prev[k]);
            } else {
                assert(plans[plans.len() - 1] == crop_plan_of(m, iw, ih));
            }
        }
    }
}

/// Plans how a whole-desktop image of size `iw` by `ih` is cut into one region
/// per monitor; monitors that fall outside the image are skipped.
pub fn plan_monitor_crops(monitors: &[(i32, i32, u32, u32)], iw: u32, ih: u32) -> (r: Vec<CropPlan>)
    ensures
        r@ == crop_plans(monitors@, iw, ih),
{
    let mut r: Vec<CropPlan> = Vec::new();
    let mut i: usize = 0;
    assert(monitors@.take(0) =~= Seq::<(i32, i32, u32, u32)>::empty());
    while i < monitors.len()
        invariant
            i <= monitors.len(),
            r@ == crop_plans(monitors@.take(i as int), iw, ih),
        decreases monitors.len() - i,
    {
        let m = monitors[i];
        assert(monitors@.take(i + 1).drop_last() =~= monitors@.take(i as int));
        assert(monitors@.take(i + 1).last() == m);
        let x: u32 = if m.0 < 0 { 0 } else { m.0 as u32 };
        let y: u32 = if m.1 < 0 { 0 } else { m.1 as u32 };
        let (cx, cy, cw, ch) = clamp_region_to_image(x, y, m.2, m.3, iw, ih);
        if cw != 0 && ch != 0 {
            r.push(CropPlan { x: m.0, y: m.1, left: cx, top: cy, width: cw, height: ch });
        }
        i += 1;
    }
    assert(monitors@.take(monitors.len() as int) =~= monitors@);
    r
}

/// Every planned crop is non-empty, lies inside the image, and is left as it is
/// by `crop_imm`'s clamping.
pub proof fn lemma_crop_plans_inside_image(ms: Seq<(i32, i32, u32, u32)>, iw: u32, ih: u32)
    ensures
        forall|k: int|
            #![trigger crop_plans(ms, iw, ih)[k]]
            0 <= k < crop_plans(ms, iw, ih).len() ==> {
                let p = crop_plans(ms, iw, ih)[k];
                &&& p.width > 0 && p.height > 0
                &&& p.left + p.width <= iw && p.top + p.height <= ih
                &&& clamp_region(p.left, p.top, p.width, p.height, iw, ih) == (p.left, p.top, p.width, p.height)
            },
        crop_plans(ms, iw, ih).len() <= ms.len(),
    decreases ms.len(),
{
    if ms.len() > 0 {
        lemma_crop_plans_inside_image(ms.drop_last(), iw, ih);
    }
}

/// A monitor's geometry in physical pixels, from GDK's logical geometry
/// `(x, y, width, height)` and its scale factor.
pub fn physical_geometry(x: i32, y: i32, w: i32, h: i32, scale: i32) -> (r: (i32, i32, u32, u32))
    requires
        i32::MIN <= x * scale <= i32::MAX,
        i32::MIN <= y * scale <= i32::MAX,
        i32::MIN <= w * scale <= i32::MAX,
        i32::MIN <= h * scale <= i32::MAX,
    ensures
        r.0 == x * scale,
        r.1 == y * scale,
        r.2 == (w * scale) as u32,
        r.3 == (h * scale) as u32,
{
    let pw: i32 = w * scale;
    let ph: i32 = h * scale;
    (x * scale, y * scale, pw as u32, ph as u32)
}

/// Whether GDK monitor `m` (`(x, y, scale)`, or `None` where GDK gave no monitor)
/// stands at `(tx, ty)`, in logical or in physical coordinates.
pub open spec fn monitor_at(m: Option<(i32, i32, i32)>, tx: i32, ty: i32) -> bool {
    match m {
        Some(g) => (g.0 == tx && g.1 == ty) || (g.0 * g.2 == tx && g.1 * g.2 == ty),
        None => false,
    }
}

proof fn lemma_i32_product_fits_i64(a: i32, b: i32)
    ensures
        i64::MIN <= a * b <= i64::MAX,
{
    assert(-0x8000_0000 <= a < 0x8000_0000 && -0x8000_0000 <= b < 0x8000_0000 ==> -0x4000_0000_0000_0000 <= a * b
        <= 0x4000_0000_0000_0000) by (nonlinear_arith);
}

/// The index of the first GDK monitor that stands at `(tx, ty)`, in logical or
/// physical coordinates; `None` when no monitor does.
pub fn find_monitor_index(monitors: &[Option<(i32, i32, i32)>], tx: i32, ty: i32) -> (r: Option<usize>)
    ensures
        match r {
            Some(i) => i < monitors@.len() && monitor_at(monitors@[i as int], tx, ty)
                && forall|j: int| 0 <= j < i ==> !monitor_at(#[trigger] monitors@[j], tx, ty),
            None => forall|j: int| 0 <= j < monitors@.len() ==> !monitor_at(#[trigger] monitors@[j], tx, ty),
        },
{
    let mut i: usize = 0;
    while i < monitors.len()
        invariant
            i <= monitors.len(),
            forall|j: int| 0 <= j < i ==> !monitor_at(#[trigger] monitors@[j], tx, ty),
        decreases monitors.len() - i,
    {
        if let Some(g) = monitors[i] {
            if g.0 == tx && g.1 == ty {
                return Some(i);
            }
            proof {
                lemma_i32_product_fits_i64(g.0, g.2);
                lemma_i32_product_fits_i64(g.1, g.2);
            }
            let px: i64 = (g.0 as i64) * (g.2 as i64);
            let py: i64 = (g.1 as i64) * (g.2 as i64);
            if px == tx as i64 && py == ty as i64 {
                return Some(i);
            }
        }
        i += 1;
    }
    None
}

} // verus!
