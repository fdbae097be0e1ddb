use vstd::prelude::*;

use crate::codec::{
    base64_bytes, base64_encode, base64_text, encode_jpeg, encode_png, jpeg_encoding, load_image, loaded_size,
    png_written, rgb_of_rgba, rgba_of, rgba_picture, rgba_to_rgb, thumbnail, to_rgba, ImageSource, Picture,
};
use crate::error::{prefixed, CaptureError, CaptureFailure};
use crate::geometry::{
    clamp_region, crop_of_monitor, crop_plans, lemma_crops_are_the_monitors_parts, plan_monitor_crops, CropPlan,
};
use crate::pixels::{
    buffer_fits, buffer_holds_image, converted_to_rgba, crop_imm, crop_rows, quad_at, quads_to_rgba, rgba_quad, PixelFormat,
    RgbaPixels,
};

verus! {

/// The kind of display server the session runs on.
#[derive(Debug, Clone, Copy, PartialEq, Eq, Structural)]
pub enum DisplayServer {
    X11,
    Wayland,
}

/// Picks the display server from which display variables are set.
/// Wayland wins when both are present.
pub fn detect_display_server(wayland_display_set: bool, x11_display_set: bool) -> (r: Result<DisplayServer, CaptureError>)
    ensures
        wayland_display_set ==> r == Ok::<DisplayServer, CaptureError>(DisplayServer::Wayland),
        !wayland_display_set && x11_display_set ==> r == Ok::<DisplayServer, CaptureError>(DisplayServer::X11),
        !wayland_display_set && !x11_display_set ==> r matches Err(CaptureError::NoDisplay),
{
    if wayland_display_set {
        return Ok(DisplayServer::Wayland);
    }
    if x11_display_set {
        return Ok(DisplayServer::X11);
    }
    Err(CaptureError::NoDisplay)
}

/// A finished capture: the whole image and a thumbnail, both as base64 PNG.
#[derive(Debug)]
pub struct CaptureResult {
    pub content: String,
    pub thumbnail: String,
    pub width: u32,
    pub height: u32,
}

/// One monitor captured as a base64 JPEG, with its place on the virtual desktop.
#[derive(Debug)]
pub struct MonitorCapture {
    pub x: i32,
    pub y: i32,
    pub width: u32,
    pub height: u32,
    pub data: String,
}

impl Clone for MonitorCapture {
    fn clone(&self) -> (r: Self)
        ensures
            r == *self,
    {
        MonitorCapture { x: self.x, y: self.y, width: self.width, height: self.height, data: self.data.clone() }
    }
}

impl View for MonitorCapture {
    type V = (i32, i32, u32, u32, Seq<char>);

    open spec fn view(&self) -> (i32, i32, u32, u32, Seq<char>) {
        (self.x, self.y, self.width, self.height, self.data@)
    }
}

pub open spec fn captures_view(v: Seq<MonitorCapture>) -> Seq<(i32, i32, u32, u32, Seq<char>)> {
    v.map_values(|m: MonitorCapture| m@)
}

/// The largest thumbnail, in pixels.
pub const THUMBNAIL_MAX_WIDTH: u32 = 240;

pub const THUMBNAIL_MAX_HEIGHT: u32 = 160;

/// The quality at which monitor images are written as JPEG.
pub const JPEG_QUALITY: u8 = 95;

/// The thumbnail of an image: at most 240 by 160, in the image's colour type.
pub open spec fn thumbnail_source(src: ImageSource) -> ImageSource {
    ImageSource::Thumbnail(Box::new(src), THUMBNAIL_MAX_WIDTH, THUMBNAIL_MAX_HEIGHT)
}

/// What processing an image gives: the base64 PNG of the image and of its
/// thumbnail, or the failure.
pub open spec fn processed_image(src: ImageSource) -> Result<(Seq<char>, Seq<char>), CaptureFailure> {
    match png_written(src) {
        Err(e) => Err(CaptureFailure::ImageProcessing("PNG encode error: "@ + e)),
        Ok(full) => match png_written(thumbnail_source(src)) {
            Err(e) => Err(CaptureFailure::ImageProcessing("Thumbnail encode error: "@ + e)),
            Ok(small) => Ok((base64_text(full), base64_text(small))),
        },
    }
}

pub open spec fn capture_result_matches(
    r: Result<CaptureResult, CaptureError>,
    spec: Result<(Seq<char>, Seq<char>), CaptureFailure>,
    width: u32,
    height: u32,
) -> bool {
    match r {
        Ok(c) => spec == Ok::<(Seq<char>, Seq<char>), CaptureFailure>((c.content@, c.thumbnail@)) && c.width
            == width && c.height == height,
        Err(e) => spec == Err::<(Seq<char>, Seq<char>), CaptureFailure>(e@),
    }
}

/// Turns a captured image into a `CaptureResult`: the image as PNG and a
/// thumbnail of at most 240 by 160 as PNG, both in the image's own colour type
/// and in base64, with the given size. The content reads back into the PNG.
pub(crate) fn process_image(img: &Picture, width: u32, height: u32) -> (r: Result<CaptureResult, CaptureError>)
    ensures
        capture_result_matches(r, processed_image(img.source()), width, height),
        r matches Ok(c) ==> (png_written(img.source()) matches Ok(full) && base64_bytes(c.content@) == Ok::<
            Seq<u8>,
            Seq<char>,
        >(full)),
{
    let thumb = thumbnail(img, THUMBNAIL_MAX_WIDTH, THUMBNAIL_MAX_HEIGHT);
    let full = match encode_png(img) {
        Ok(b) => b,
        Err(e) => return Err(CaptureError::ImageProcessing(prefixed("PNG encode error: ", &e))),
    };
    let content = base64_encode(&full);
    let small = match encode_png(&thumb) {
        Ok(b) => b,
        Err(e) => return Err(CaptureError::ImageProcessing(prefixed("Thumbnail encode error: ", &e))),
    };
    let thumbnail = base64_encode(&small);
    Ok(CaptureResult { content, thumbnail, width, height })
}

/// What finishing a region capture gives: the raw RGBA buffer must hold the
/// whole region, then it is processed.
pub open spec fn finished_region(raw: Seq<u8>, width: u32, height: u32) -> Result<(Seq<char>, Seq<char>), CaptureFailure> {
    if buffer_fits(width, height, 4, raw.len() as int) {
        processed_image(ImageSource::Rgba(width, height, raw))
    } else {
        Err(CaptureFailure::ImageProcessing("Buffer RGBA inválido"@))
    }
}

/// Turns the raw RGBA pixels of a captured region into a `CaptureResult`;
/// fails when the buffer is too short for the region's size. A buffer longer
/// than the region cannot be written as PNG (the image crate's PNG encoder
/// stops the program on it), so it is not accepted.
pub fn finish_region_capture(raw: Vec<u8>, width: u32, height: u32) -> (r: Result<CaptureResult, CaptureError>)
    requires
        raw@.len() <= 4 * width * height,
    ensures
        capture_result_matches(r, finished_region(raw@, width, height), width, height),
{
    if !buffer_holds_image(width, height, 4, raw.len()) {
        return Err(CaptureError::ImageProcessing(String::from_str("Buffer RGBA inválido")));
    }
    let img = rgba_picture(RgbaPixels { width, height, data: raw });
    process_image(&img, width, height)
}

/// The point `(abs_x, abs_y)` of the virtual desktop relative to the origin of
/// the monitor that holds it.
pub fn region_origin_in_monitor(abs_x: i32, abs_y: i32, monitor_x: i32, monitor_y: i32) -> (r: (i32, i32))
    requires
        i32::MIN <= abs_x - monitor_x <= i32::MAX,
        i32::MIN <= abs_y - monitor_y <= i32::MAX,
    ensures
        r.0 == abs_x - monitor_x,
        r.1 == abs_y - monitor_y,
{
    (abs_x - monitor_x, abs_y - monitor_y)
}

/// What making a thumbnail of an image file gives: its base64 PNG, in the
/// image's colour type, or the failure.
pub open spec fn thumbnail_b64_of(png: Seq<u8>) -> Result<Seq<char>, CaptureFailure> {
    match loaded_size(png) {
        Err(e) => Err(CaptureFailure::ImageProcessing("Imagen inválida: "@ + e)),
        Ok(_) => match png_written(thumbnail_source(ImageSource::File(png))) {
            Err(e) => Err(CaptureFailure::ImageProcessing("Thumbnail encode error: "@ + e)),
            Ok(small) => Ok(base64_text(small)),
        },
    }
}

/// Makes a thumbnail of at most 240 by 160 of an image file, as base64 PNG.
pub fn generate_thumbnail_b64(png_bytes: &[u8]) -> (r: Result<String, CaptureError>)
    ensures
        match r {
            Ok(s) => thumbnail_b64_of(png_bytes@) == Ok::<Seq<char>, CaptureFailure>(s@),
            Err(e) => thumbnail_b64_of(png_bytes@) == Err::<Seq<char>, CaptureFailure>(e@),
        },
{
    let img = match load_image(png_bytes) {
        Ok(p) => p,
        Err(e) => return Err(CaptureError::ImageProcessing(prefixed("Imagen inválida: ", &e))),
    };
    let thumb = thumbnail(&img, THUMBNAIL_MAX_WIDTH, THUMBNAIL_MAX_HEIGHT);
    let small = match encode_png(&thumb) {
        Ok(b) => b,
        Err(e) => return Err(CaptureError::ImageProcessing(prefixed("Thumbnail encode error: ", &e))),
    };
    Ok(base64_encode(&small))
}

/// What reading an image file as 8-bit RGBA gives: its size and pixels, or the
/// text of the error.
pub open spec fn decoded_image(data: Seq<u8>) -> Result<(u32, u32, Seq<u8>), Seq<char>> {
    match loaded_size(data) {
        Ok(s) => Ok((s.0, s.1, rgba_of(ImageSource::File(data)))),
        Err(e) => Err(e),
    }
}

/// Reads an image file and converts it to 8-bit RGBA.
fn decode_rgba(data: &[u8]) -> (r: Result<RgbaPixels, String>)
    ensures
        match r {
            Ok(p) => decoded_image(data@) == Ok::<(u32, u32, Seq<u8>), Seq<char>>((p.width, p.height, p.data@))
                && p.data@.len() == 4 * p.width * p.height,
            Err(e) => decoded_image(data@) == Err::<(u32, u32, Seq<u8>), Seq<char>>(e@),
        },
{
    match load_image(data) {
        Ok(img) => Ok(to_rgba(&img)),
        Err(e) => Err(e),
    }
}

/// The base64 JPEG of an RGBA image, or the text of the encoder's error.
pub open spec fn jpeg_b64_of(w: u32, h: u32, data: Seq<u8>) -> Result<Seq<char>, Seq<char>> {
    match jpeg_encoding(w, h, rgb_of_rgba(w, h, data), JPEG_QUALITY) {
        Ok(j) => Ok(base64_text(j)),
        Err(e) => Err(e),
    }
}

/// Writes an RGBA image as RGB JPEG at quality 95, in base64.
fn rgba_to_jpeg_b64(px: &RgbaPixels) -> (r: Result<String, String>)
    requires
        px.wf(),
    ensures
        match r {
            Ok(s) => jpeg_b64_of(px.width, px.height, px.data@) == Ok::<Seq<char>, Seq<char>>(s@),
            Err(e) => jpeg_b64_of(px.width, px.height, px.data@) == Err::<Seq<char>, Seq<char>>(e@),
        },
{
    let rgb = rgba_to_rgb(px);
    match encode_jpeg(px.width, px.height, &rgb, JPEG_QUALITY) {
        Ok(j) => Ok(base64_encode(&j)),
        Err(e) => Err(e),
    }
}

/// What turning an image file into a single monitor at the desktop origin gives.
pub open spec fn single_monitor_of(data: Seq<u8>) -> Result<Seq<(i32, i32, u32, u32, Seq<char>)>, CaptureFailure> {
    match decoded_image(data) {
        Err(e) => Err(CaptureFailure::ImageProcessing("Imagen inválida: "@ + e)),
        Ok(img) => match jpeg_b64_of(img.0, img.1, img.2) {
            Err(e) => Err(CaptureFailure::ImageProcessing("JPEG encode error: "@ + e)),
            Ok(s) => Ok(seq![(0i32, 0i32, img.0, img.1, s)]),
        },
    }
}

pub open spec fn captures_match(
    r: Result<Vec<MonitorCapture>, CaptureError>,
    spec: Result<Seq<(i32, i32, u32, u32, Seq<char>)>, CaptureFailure>,
) -> bool {
    match r {
        Ok(v) => spec == Ok::<Seq<(i32, i32, u32, u32, Seq<char>)>, CaptureFailure>(captures_view(v@)),
        Err(e) => spec == Err::<Seq<(i32, i32, u32, u32, Seq<char>)>, CaptureFailure>(e@),
    }
}

/// Turns a whole-screen image file into one monitor at `(0, 0)`, as base64 JPEG.
pub fn image_bytes_to_monitor_captures(data: &[u8]) -> (r: Result<Vec<MonitorCapture>, CaptureError>)
    ensures
        captures_match(r, single_monitor_of(data@)),
{
    let px = match decode_rgba(data) {
        Ok(p) => p,
        Err(e) => return Err(CaptureError::ImageProcessing(prefixed("Imagen inválida: ", &e))),
    };
    let b64 = match rgba_to_jpeg_b64(&px) {
        Ok(s) => s,
        Err(e) => return Err(CaptureError::ImageProcessing(prefixed("JPEG encode error: ", &e))),
    };
    let mut v: Vec<MonitorCapture> = Vec::new();
    v.push(MonitorCapture { x: 0, y: 0, width: px.width, height: px.height, data: b64 });
    assert(captures_view(v@) =~= seq![(0i32, 0i32, px.width, px.height, v@[0].data@)]);
    Ok(v)
}

} // verus!

verus! {

/// The base64 JPEG of the region that `crop_imm` keeps of `(x, y, w, h)` in an
/// RGBA image, with that region's size.
pub open spec fn cropped_jpeg_b64(img: (u32, u32, Seq<u8>), x: u32, y: u32, w: u32, h: u32) -> (
    u32,
    u32,
    Result<Seq<char>, Seq<char>>,
) {
    let c = clamp_region(x, y, w, h, img.0, img.1);
    let cropped = crop_rows(img.2, img.0 as int, c.0 as int, c.1 as int, c.2 as int, c.3 as int);
    (c.2, c.3, jpeg_b64_of(c.2, c.3, cropped))
}

/// The monitors cut out of a decoded desktop image along `plans`, in order, or
/// the first encoding failure.
pub open spec fn encoded_crops(img: (u32, u32, Seq<u8>), plans: Seq<CropPlan>) -> Result<
    Seq<(i32, i32, u32, u32, Seq<char>)>,
    CaptureFailure,
>
    decreases plans.len(),
{
    if plans.len() == 0 {
        Ok(Seq::empty())
    } else {
        match encoded_crops(img, plans.drop_last()) {
            Err(e) => Err(e),
            Ok(done) => {
                let p = plans.last();
                let c = cropped_jpeg_b64(img, p.left, p.top, p.width, p.height);
                match c.2 {
                    Err(e) => Err(CaptureFailure::ImageProcessing("JPEG encode: "@ + e)),
                    Ok(s) => Ok(done.push((p.x, p.y, p.width, p.height, s))),
                }
            },
        }
    }
}

/// What splitting a desktop image file by monitors gives.
pub open spec fn split_by_monitors(data: Seq<u8>, monitors: Seq<(i32, i32, u32, u32)>) -> Result<
    Seq<(i32, i32, u32, u32, Seq<char>)>,
    CaptureFailure,
> {
    match decoded_image(data) {
        Err(e) => Err(CaptureFailure::ImageProcessing("Imagen inválida: "@ + e)),
        Ok(img) => match encoded_crops(img, crop_plans(monitors, img.0, img.1)) {
            Err(e) => Err(e),
            Ok(shots) => if shots.len() == 0 {
                Err(CaptureFailure::Capture("Ningún monitor quedó dentro de la imagen capturada"@))
            } else {
                Ok(shots)
            },
        },
    }
}

proof fn lemma_encoded_crops_follow_plans(img: (u32, u32, Seq<u8>), plans: Seq<CropPlan>)
    ensures
        encoded_crops(img, plans) matches Ok(s) ==> s.len() == plans.len() && forall|k: int|
            #![trigger s[k]]
            0 <= k < s.len() ==> s[k].0 == plans[k].x && s[k].1 == plans[k].y && s[k].2 == plans[k].width
                && s[k].3 == plans[k].height,
    decreases plans.len(),
{
    if plans.len() > 0 {
        lemma_encoded_crops_follow_plans(img, plans.drop_last());
    }
}

/// Splitting a desktop image yields at least one and at most one capture per
/// monitor, each of a non-empty region of the image.
pub proof fn lemma_split_yields_nonempty_crops(data: Seq<u8>, monitors: Seq<(i32, i32, u32, u32)>)
    ensures
        split_by_monitors(data, monitors) matches Ok(s) ==> 0 < s.len() <= monitors.len() && forall|k: int|
            #![trigger s[k]]
            0 <= k < s.len() ==> s[k].2 > 0 && s[k].3 > 0,
{
    if let Ok(img) = decoded_image(data) {
        let plans = crop_plans(monitors, img.0, img.1);
        crate::geometry::lemma_crop_plans_inside_image(monitors, img.0, img.1);
        lemma_encoded_crops_follow_plans(img, plans);
        if let Ok(s) = encoded_crops(img, plans) {
            assert forall|k: int| #![trigger s[k]] 0 <= k < s.len() implies s[k].2 > 0 && s[k].3 > 0 by {
                assert(plans[k] == crop_plans(monitors, img.0, img.1)[k]);
            }
        }
    }
}

/// Every monitor cut out of a desktop image is one of the given monitors, at
/// its place on the desktop, with the size of its part of the image.
pub proof fn lemma_split_shots_are_monitor_parts(data: Seq<u8>, monitors: Seq<(i32, i32, u32, u32)>)
    ensures
        split_by_monitors(data, monitors) matches Ok(s) ==> (decoded_image(data) matches Ok(img) && forall|k: int|
            #![trigger s[k]]
            0 <= k < s.len() ==> exists|i: int, p: CropPlan|
                0 <= i < monitors.len() && #[trigger] crop_of_monitor(p, monitors[i], img.0, img.1) && s[k].0 == p.x
                    && s[k].1 == p.y && s[k].2 == p.width && s[k].3 == p.height),
{
    if let Ok(img) = decoded_image(data) {
        let plans = crop_plans(monitors, img.0, img.1);
        lemma_crops_are_the_monitors_parts(monitors, img.0, img.1);
        lemma_encoded_crops_follow_plans(img, plans);
        if let Ok(s) = encoded_crops(img, plans) {
            assert forall|k: int| #![trigger s[k]] 0 <= k < s.len() implies exists|i: int, p: CropPlan|
                0 <= i < monitors.len() && #[trigger] crop_of_monitor(p, monitors[i], img.0, img.1) && s[k].0 == p.x
                    && s[k].1 == p.y && s[k].2 == p.width && s[k].3 == p.height by {
                let p = plans[k];
                assert(p == crop_plans(monitors, img.0, img.1)[k]);
                let i = choose|i: int| 0 <= i < monitors.len() && crop_of_monitor(p, #[trigger] monitors[i], img.0, img.1);
                assert(monitors[i] == monitors[i]);
                assert(crop_of_monitor(p, monitors[i], img.0, img.1));
            }
        }
    }
}

/// One monitor cut out of a desktop image file keeps the requested place, and
/// its size is the requested size cut down to what is left of the image from
/// the requested origin (read as unsigned, then kept within the image).
pub proof fn lemma_desktop_region_placed_and_clamped(data: Seq<u8>, x: i32, y: i32, w: u32, h: u32)
    ensures
        desktop_region_capture(data, x, y, w, h) matches Ok(m) ==> (decoded_image(data) matches Ok(img) && {
            let left: int = if (x as u32) < img.0 { (x as u32) as int } else { img.0 as int };
            let top: int = if (y as u32) < img.1 { (y as u32) as int } else { img.1 as int };
            &&& m.0 == x && m.1 == y
            &&& m.2 == (if w < img.0 - left { w as int } else { img.0 - left })
            &&& m.3 == (if h < img.1 - top { h as int } else { img.1 - top })
        }),
{
}

/// Cuts a whole-desktop image file into one base64 JPEG per monitor
/// `(x, y, width, height)`, in physical pixels. Each monitor's region is
/// clamped into the image; monitors left with nothing are skipped, and it is an
/// error when every monitor is.
pub fn split_image_by_monitors(data: &[u8], monitors: &[(i32, i32, u32, u32)]) -> (r: Result<
    Vec<MonitorCapture>,
    CaptureError,
>)
    ensures
        captures_match(r, split_by_monitors(data@, monitors@)),
{
    let px = match decode_rgba(data) {
        Ok(p) => p,
        Err(e) => return Err(CaptureError::ImageProcessing(prefixed("Imagen inválida: ", &e))),
    };
    let ghost img = (px.width, px.height, px.data@);
    let plans = plan_monitor_crops(monitors, px.width, px.height);
    let mut result: Vec<MonitorCapture> = Vec::new();
    let mut i: usize = 0;
    assert(plans@.take(0) =~= Seq::<CropPlan>::empty());
    assert(captures_view(result@) =~= Seq::empty());
    while i < plans.len()
        invariant
            px.wf(),
            img == (px.width, px.height, px.data@),
            decoded_image(data@) == Ok::<(u32, u32, Seq<u8>), Seq<char>>(img),
            plans@ == crop_plans(monitors@, px.width, px.height),
            i <= plans.len(),
            result@.len() == i,
            encoded_crops(img, plans@.take(i as int)) == Ok::<
                Seq<(i32, i32, u32, u32, Seq<char>)>,
                CaptureFailure,
            >(captures_view(result@)),
        decreases plans.len() - i,
    {
        let p = plans[i];
        assert(plans@.take(i + 1).drop_last() =~= plans@.take(i as int));
        assert(plans@.take(i + 1).last() == p);
        let cropped = crop_imm(&px, p.left, p.top, p.width, p.height);
        let b64 = match rgba_to_jpeg_b64(&cropped) {
            Ok(s) => s,
            Err(e) => {
                proof {
                    lemma_crop_failure_persists(img, plans@, i as int + 1);
                }
                return Err(CaptureError::ImageProcessing(prefixed("JPEG encode: ", &e)));
            },
        };
        let ghost before = result@;
        result.push(MonitorCapture { x: p.x, y: p.y, width: cropped.width, height: cropped.height, data: b64 });
        proof {
            lemma_crop_plans_sizes(monitors@, px.width, px.height, i as int);
            assert(captures_view(result@) =~= captures_view(before).push(result@[i as int]@));
        }
        i += 1;
    }
    assert(plans@.take(plans.len() as int) =~= plans@);
    if result.len() == 0 {
        return Err(CaptureError::Capture(String::from_str("Ningún monitor quedó dentro de la imagen capturada")));
    }
    Ok(result)
}

/// A planned crop is left as it is by `crop_imm`'s clamping.
proof fn lemma_crop_plans_sizes(ms: Seq<(i32, i32, u32, u32)>, iw: u32, ih: u32, k: int)
    requires
        0 <= k < crop_plans(ms, iw, ih).len(),
    ensures
        ({
            let p = crop_plans(ms, iw, ih)[k];
            clamp_region(p.left, p.top, p.width, p.height, iw, ih) == (p.left, p.top, p.width, p.height)
        }),
{
    crate::geometry::lemma_crop_plans_inside_image(ms, iw, ih);
    let p = crop_plans(ms, iw, ih)[k];
    assert(p == crop_plans(ms, iw, ih)[k]);
}

/// Once encoding the first `i` crops has failed, encoding all of them fails the same way.
proof fn lemma_crop_failure_persists(img: (u32, u32, Seq<u8>), plans: Seq<CropPlan>, i: int)
    requires
        0 < i <= plans.len(),
        encoded_crops(img, plans.take(i - 1)) is Ok,
        cropped_jpeg_b64(img, plans[i - 1].left, plans[i - 1].top, plans[i - 1].width, plans[i - 1].height).2 is Err,
    ensures
        encoded_crops(img, plans) == Err::<Seq<(i32, i32, u32, u32, Seq<char>)>, CaptureFailure>(
            CaptureFailure::ImageProcessing(
                "JPEG encode: "@ + cropped_jpeg_b64(
                    img,
                    plans[i - 1].left,
                    plans[i - 1].top,
                    plans[i - 1].width,
                    plans[i - 1].height,
                ).2->Err_0,
            ),
        ),
    decreases plans.len() - i,
{
    assert(plans.take(i).drop_last() =~= plans.take(i - 1));
    if i < plans.len() {
        assert(plans.take(i + 1).drop_last() =~= plans.take(i));
        lemma_crop_failure_persists_on(img, plans, i);
    } else {
        assert(plans.take(i) =~= plans);
    }
}

proof fn lemma_crop_failure_persists_on(img: (u32, u32, Seq<u8>), plans: Seq<CropPlan>, i: int)
    requires
        0 < i <= plans.len(),
        encoded_crops(img, plans.take(i)) is Err,
    ensures
        encoded_crops(img, plans) == encoded_crops(img, plans.take(i)),
    decreases plans.len() - i,
{
    if i < plans.len() {
        assert(plans.take(i + 1).drop_last() =~= plans.take(i));
        lemma_crop_failure_persists_on(img, plans, i + 1);
    } else {
        assert(plans.take(i) =~= plans);
    }
}

} // verus!

verus! {

/// What encoding one screen-cast frame gives: the buffer must hold the frame
/// (in its own layout), then it becomes a base64 JPEG at `(x, y)`.
pub open spec fn frame_capture(data: Seq<u8>, width: u32, height: u32, format: PixelFormat, x: i32, y: i32) -> Result<
    (i32, i32, u32, u32, Seq<char>),
    Seq<char>,
> {
    let jpeg = match format {
        PixelFormat::Unsupported(name) => Err("Formato de video no soportado: "@ + name@),
        PixelFormat::Rgb => if buffer_fits(width, height, 3, data.len() as int) {
            match jpeg_encoding(width, height, data, JPEG_QUALITY) {
                Ok(j) => Ok(base64_text(j)),
                Err(e) => Err(e),
            }
        } else {
            Err("Buffer RGB inválido"@)
        },
        PixelFormat::Rgba => if buffer_fits(width, height, 4, data.len() as int) {
            jpeg_b64_of(width, height, data)
        } else {
            Err("Buffer RGBA inválido"@)
        },
        _ => {
            let rgba = rgba_frame(data, format);
            if buffer_fits(width, height, 4, rgba.len() as int) {
                jpeg_b64_of(width, height, rgba)
            } else {
                Err(invalid_buffer_text(format))
            }
        },
    };
    match jpeg {
        Ok(s) => Ok((x, y, width, height, s)),
        Err(e) => Err(e),
    }
}

/// The RGBA bytes that a frame of layout `format` stands for.
pub open spec fn rgba_frame(data: Seq<u8>, format: PixelFormat) -> Seq<u8> {
    choose|out: Seq<u8>| converted_to_rgba(data, out, format)
}

pub open spec fn invalid_buffer_text(format: PixelFormat) -> Seq<char> {
    match format {
        PixelFormat::Rgbx => "Buffer RGBx inválido"@,
        PixelFormat::Bgra => "Buffer BGRA inválido"@,
        _ => "Buffer BGRx inválido"@,
    }
}

/// The reordered frame is fixed by the frame: two reorderings agree.
proof fn lemma_converted_unique(d: Seq<u8>, a: Seq<u8>, b: Seq<u8>, fmt: PixelFormat)
    requires
        converted_to_rgba(d, a, fmt),
        converted_to_rgba(d, b, fmt),
    ensures
        a == b,
{
    assert forall|i: int| 0 <= i < a.len() implies a[i] == b[i] by {
        let k = i / 4;
        assert(quad_at(a, k) == quad_at(b, k));
        assert(i == 4 * k + i % 4);
    }
    assert(a =~= b);
}

/// The RGBA bytes of a BGRA frame: in each whole four-byte pixel the first and
/// third bytes (blue and red) change places; trailing bytes are dropped.
pub open spec fn bgra_swapped(d: Seq<u8>) -> Seq<u8> {
    Seq::new(
        (4 * (d.len() / 4)) as nat,
        |i: int|
            if i % 4 == 0 {
                d[i + 2]
            } else if i % 4 == 2 {
                d[i - 2]
            } else {
                d[i]
            },
    )
}

/// A BGRA frame is encoded as the JPEG of its pixels with red and blue put
/// back in place, at the place the caller gives; a buffer too short for the
/// frame is refused.
pub proof fn lemma_bgra_frame_swaps_red_and_blue(data: Seq<u8>, width: u32, height: u32, x: i32, y: i32)
    ensures
        !buffer_fits(width, height, 4, (4 * (data.len() / 4)) as int) ==> frame_capture(
            data,
            width,
            height,
            PixelFormat::Bgra,
            x,
            y,
        ) == Err::<(i32, i32, u32, u32, Seq<char>), Seq<char>>("Buffer BGRA inválido"@),
        buffer_fits(width, height, 4, (4 * (data.len() / 4)) as int) ==> frame_capture(
            data,
            width,
            height,
            PixelFormat::Bgra,
            x,
            y,
        ) == match jpeg_b64_of(width, height, bgra_swapped(data)) {
            Ok(s) => Ok::<(i32, i32, u32, u32, Seq<char>), Seq<char>>((x, y, width, height, s)),
            Err(e) => Err::<(i32, i32, u32, u32, Seq<char>), Seq<char>>(e),
        },
{
    lemma_rgba_bytes_is_the_reordering(data, PixelFormat::Bgra);
    assert(bgra_swapped(data) =~= rgba_bytes(data, PixelFormat::Bgra));
}

/// Turns one raw screen-cast frame into a base64 JPEG monitor at `(x, y)`.
/// RGBx, BGRA and BGRx frames are first reordered into RGBA, whole pixels only;
/// it is an error when the buffer is too short for the frame's size, or the
/// layout is not one of these five.
pub fn raw_pixels_to_monitor_capture(data: Vec<u8>, width: u32, height: u32, format: &PixelFormat, x: i32, y: i32) -> (r: Result<
    MonitorCapture,
    String,
>)
    ensures
        match r {
            Ok(m) => frame_capture(data@, width, height, *format, x, y) == Ok::<
                (i32, i32, u32, u32, Seq<char>),
                Seq<char>,
            >(m@),
            Err(e) => frame_capture(data@, width, height, *format, x, y) == Err::<
                (i32, i32, u32, u32, Seq<char>),
                Seq<char>,
            >(e@),
        },
{
    let b64 = match format {
        PixelFormat::Unsupported(name) => {
            return Err(prefixed("Formato de video no soportado: ", name));
        },
        PixelFormat::Rgb => {
            if !buffer_holds_image(width, height, 3, data.len()) {
                return Err(String::from_str("Buffer RGB inválido"));
            }
            match encode_jpeg(width, height, &data, JPEG_QUALITY) {
                Ok(j) => base64_encode(&j),
                Err(e) => return Err(e),
            }
        },
        PixelFormat::Rgba => {
            if !buffer_holds_image(width, height, 4, data.len()) {
                return Err(String::from_str("Buffer RGBA inválido"));
            }
            let px = RgbaPixels { width, height, data };
            match rgba_to_jpeg_b64(&px) {
                Ok(s) => s,
                Err(e) => return Err(e),
            }
        },
        _ => {
            let rgba = quads_to_rgba(&data, format);
            proof {
                lemma_converted_unique(data@, rgba@, rgba_frame(data@, *format), *format);
            }
            if !buffer_holds_image(width, height, 4, rgba.len()) {
                let msg = match format {
                    PixelFormat::Rgbx => String::from_str("Buffer RGBx inválido"),
                    PixelFormat::Bgra => String::from_str("Buffer BGRA inválido"),
                    _ => String::from_str("Buffer BGRx inválido"),
                };
                return Err(msg);
            }
            let px = RgbaPixels { width, height, data: rgba };
            match rgba_to_jpeg_b64(&px) {
                Ok(s) => s,
                Err(e) => return Err(e),
            }
        },
    };
    Ok(MonitorCapture { x, y, width, height, data: b64 })
}

/// What encoding one X11 monitor shot gives: the raw RGBA buffer must hold the
/// whole monitor; its place is given relative to the desktop origin.
pub open spec fn screen_capture(raw: Seq<u8>, x: i32, y: i32, width: u32, height: u32, min_x: i32, min_y: i32) -> Result<
    (i32, i32, u32, u32, Seq<char>),
    CaptureFailure,
> {
    if !buffer_fits(width, height, 4, raw.len() as int) {
        Err(CaptureFailure::ImageProcessing("Buffer RGBA inválido"@))
    } else {
        match jpeg_b64_of(width, height, raw) {
            Err(e) => Err(CaptureFailure::ImageProcessing("JPEG encode error: "@ + e)),
            Ok(s) => Ok(((x - min_x) as i32, (y - min_y) as i32, width, height, s)),
        }
    }
}

/// The RGBA byte at position `i` of a frame `d` of four-byte layout `fmt`:
/// BGR layouts take red and blue from each other's place, and layouts whose
/// fourth byte is unused give an opaque alpha of 255.
pub open spec fn rgba_byte(d: Seq<u8>, fmt: PixelFormat, i: int) -> u8 {
    let swap = fmt is Bgra || fmt is Bgrx;
    let opaque = fmt is Rgbx || fmt is Bgrx;
    if i % 4 == 3 && opaque {
        255u8
    } else if i % 4 == 0 && swap {
        d[i + 2]
    } else if i % 4 == 2 && swap {
        d[i - 2]
    } else {
        d[i]
    }
}

/// The frame of four-byte layout `fmt` put in RGBA order, byte by byte.
pub open spec fn rgba_bytes(data: Seq<u8>, fmt: PixelFormat) -> Seq<u8> {
    Seq::new((4 * (data.len() / 4)) as nat, |i: int| rgba_byte(data, fmt, i))
}

proof fn lemma_rgba_bytes_is_the_reordering(data: Seq<u8>, fmt: PixelFormat)
    requires
        fmt is Rgbx || fmt is Bgra || fmt is Bgrx,
    ensures
        rgba_frame(data, fmt) == rgba_bytes(data, fmt),
{
    let out = rgba_bytes(data, fmt);
    assert forall|k: int| 0 <= k < data.len() / 4 implies #[trigger] quad_at(out, k) == rgba_quad(
        fmt,
        quad_at(data, k),
    ) by {
        assert((4 * k) % 4 == 0 && (4 * k + 1) % 4 == 1 && (4 * k + 2) % 4 == 2 && (4 * k + 3) % 4 == 3);
        assert(4 * k + 3 < 4 * (data.len() / 4));
    }
    assert(converted_to_rgba(data, out, fmt));
    lemma_converted_unique(data, rgba_frame(data, fmt), out, fmt);
}

/// An RGBx, BGRA or BGRx frame is encoded as the JPEG of its whole pixels put
/// in RGBA order, byte by byte as `rgba_byte` says, at the place the caller
/// gives.
pub proof fn lemma_four_byte_frames_in_rgba_order(
    data: Seq<u8>,
    fmt: PixelFormat,
    width: u32,
    height: u32,
    x: i32,
    y: i32,
)
    requires
        fmt is Rgbx || fmt is Bgra || fmt is Bgrx,
    ensures
        buffer_fits(width, height, 4, rgba_bytes(data, fmt).len() as int) ==> frame_capture(
            data,
            width,
            height,
            fmt,
            x,
            y,
        ) == match jpeg_b64_of(width, height, rgba_bytes(data, fmt)) {
            Ok(s) => Ok::<(i32, i32, u32, u32, Seq<char>), Seq<char>>((x, y, width, height, s)),
            Err(e) => Err::<(i32, i32, u32, u32, Seq<char>), Seq<char>>(e),
        },
{
    lemma_rgba_bytes_is_the_reordering(data, fmt);
}

/// An RGBA frame is encoded as the JPEG of its own bytes, at the place the
/// caller gives.
pub proof fn lemma_rgba_frame_as_is(data: Seq<u8>, width: u32, height: u32, x: i32, y: i32)
    ensures
        buffer_fits(width, height, 4, data.len() as int) ==> frame_capture(data, width, height, PixelFormat::Rgba, x, y)
            == match jpeg_b64_of(width, height, data) {
            Ok(s) => Ok::<(i32, i32, u32, u32, Seq<char>), Seq<char>>((x, y, width, height, s)),
            Err(e) => Err::<(i32, i32, u32, u32, Seq<char>), Seq<char>>(e),
        },
{
}

/// An X11 monitor shot is placed relative to the desktop origin: at
/// `(x - min_x, y - min_y)`, with the monitor's own size.
pub proof fn lemma_screen_capture_relative_to_origin(
    raw: Seq<u8>,
    x: i32,
    y: i32,
    width: u32,
    height: u32,
    min_x: i32,
    min_y: i32,
)
    requires
        i32::MIN <= x - min_x <= i32::MAX,
        i32::MIN <= y - min_y <= i32::MAX,
    ensures
        screen_capture(raw, x, y, width, height, min_x, min_y) matches Ok(m) ==> m.0 == x - min_x && m.1 == y
            - min_y && m.2 == width && m.3 == height,
        screen_capture(raw, x, y, width, height, min_x, min_y) is Ok <==> buffer_fits(width, height, 4, raw.len() as int)
            && jpeg_b64_of(width, height, raw) is Ok,
{
}

/// Turns the raw RGBA shot of one X11 monitor at `(x, y)` into a base64 JPEG
/// placed relative to the desktop origin `(min_x, min_y)`.
pub fn encode_screen_capture(raw: Vec<u8>, x: i32, y: i32, width: u32, height: u32, min_x: i32, min_y: i32) -> (r: Result<
    MonitorCapture,
    CaptureError,
>)
    requires
        i32::MIN <= x - min_x <= i32::MAX,
        i32::MIN <= y - min_y <= i32::MAX,
    ensures
        match r {
            Ok(m) => screen_capture(raw@, x, y, width, height, min_x, min_y) == Ok::<
                (i32, i32, u32, u32, Seq<char>),
                CaptureFailure,
            >(m@),
            Err(e) => screen_capture(raw@, x, y, width, height, min_x, min_y) == Err::<
                (i32, i32, u32, u32, Seq<char>),
                CaptureFailure,
            >(e@),
        },
{
    if !buffer_holds_image(width, height, 4, raw.len()) {
        return Err(CaptureError::ImageProcessing(String::from_str("Buffer RGBA inválido")));
    }
    let px = RgbaPixels { width, height, data: raw };
    let b64 = match rgba_to_jpeg_b64(&px) {
        Ok(s) => s,
        Err(e) => return Err(CaptureError::ImageProcessing(prefixed("JPEG encode error: ", &e))),
    };
    Ok(MonitorCapture { x: x - min_x, y: y - min_y, width, height, data: b64 })
}

/// What cutting one monitor out of a whole-desktop image file gives: the
/// requested origin is read as unsigned (a negative one wraps around), and the
/// region is clamped into the image.
pub open spec fn desktop_region_capture(data: Seq<u8>, x: i32, y: i32, w: u32, h: u32) -> Result<
    (i32, i32, u32, u32, Seq<char>),
    CaptureFailure,
> {
    match decoded_image(data) {
        Err(e) => Err(CaptureFailure::ImageProcessing("Imagen inválida: "@ + e)),
        Ok(img) => {
            let c = cropped_jpeg_b64(img, x as u32, y as u32, w, h);
            match c.2 {
                Err(e) => Err(CaptureFailure::ImageProcessing("JPEG encode error: "@ + e)),
                Ok(s) => Ok((x, y, c.0, c.1, s)),
            }
        },
    }
}

/// Cuts the monitor `(x, y, width, height)` out of a whole-desktop image file,
/// as a base64 JPEG of the region that is left after clamping.
pub fn crop_desktop_region(data: &[u8], x: i32, y: i32, width: u32, height: u32) -> (r: Result<
    MonitorCapture,
    CaptureError,
>)
    ensures
        match r {
            Ok(m) => desktop_region_capture(data@, x, y, width, height) == Ok::<
                (i32, i32, u32, u32, Seq<char>),
                CaptureFailure,
            >(m@),
            Err(e) => desktop_region_capture(data@, x, y, width, height) == Err::<
                (i32, i32, u32, u32, Seq<char>),
                CaptureFailure,
            >(e@),
        },
{
    let px = match decode_rgba(data) {
        Ok(p) => p,
        Err(e) => return Err(CaptureError::ImageProcessing(prefixed("Imagen inválida: ", &e))),
    };
    let cropped = crop_imm(&px, x as u32, y as u32, width, height);
    let b64 = match rgba_to_jpeg_b64(&cropped) {
        Ok(s) => s,
        Err(e) => return Err(CaptureError::ImageProcessing(prefixed("JPEG encode error: ", &e))),
    };
    Ok(MonitorCapture { x, y, width: cropped.width, height: cropped.height, data: b64 })
}

} // verus!

verus! {

/// Whether `c` has Unicode's White_Space property, as `char::is_whitespace` tests.
pub open spec fn is_whitespace(c: char) -> bool {
    ||| '\u{9}' <= c <= '\u{D}'
    ||| c == ' '
    ||| c == '\u{85}'
    ||| c == '\u{A0}'
    ||| c == '\u{1680}'
    ||| '\u{2000}' <= c <= '\u{200A}'
    ||| c == '\u{2028}'
    ||| c == '\u{2029}'
    ||| c == '\u{202F}'
    ||| c == '\u{205F}'
    ||| c == '\u{3000}'
}

fn char_is_whitespace(c: char) -> (b: bool)
    ensures
        b == is_whitespace(c),
{
    ('\u{9}' <= c && c <= '\u{D}') || c == ' ' || c == '\u{85}' || c == '\u{A0}' || c == '\u{1680}' || ('\u{2000}'
        <= c && c <= '\u{200A}') || c == '\u{2028}' || c == '\u{2029}' || c == '\u{202F}' || c == '\u{205F}' || c
        == '\u{3000}'
}

/// `s` without its leading white space, as `str::trim_start` gives it.
pub open spec fn trim_start(s: Seq<char>) -> Seq<char>
    decreases s.len(),
{
    if s.len() > 0 && is_whitespace(s[0]) {
        trim_start(s.drop_first())
    } else {
        s
    }
}

/// Whether GNOME Shell's screenshot call succeeded: the `gdbus` process exited
/// with success and its reply does not begin with `(false`.
pub open spec fn gdbus_reply_ok(success: bool, stdout: Seq<char>) -> bool {
    let t = trim_start(stdout);
    success && !(t.len() >= 6 && t.subrange(0, 6) == seq!['(', 'f', 'a', 'l', 's', 'e'])
}

proof fn lemma_trim_start_skip(s: Seq<char>, k: int)
    requires
        0 <= k <= s.len(),
        forall|i: int| 0 <= i < k ==> is_whitespace(#[trigger] s[i]),
    ensures
        trim_start(s) == trim_start(s.subrange(k, s.len() as int)),
    decreases k,
{
    if k > 0 {
        assert(is_whitespace(s[0]));
        let t = s.drop_first();
        assert forall|i: int| 0 <= i < k - 1 implies is_whitespace(#[trigger] t[i]) by {
            assert(t[i] == s[i + 1]);
        }
        lemma_trim_start_skip(t, k - 1);
        assert(t.subrange(k - 1, t.len() as int) =~= s.subrange(k, s.len() as int));
    } else {
        assert(s.subrange(0, s.len() as int) =~= s);
    }
}

/// Checks the outcome of a `gdbus` call to GNOME Shell's screenshot method.
pub fn gdbus_screenshot_succeeded(success: bool, stdout: &str) -> (b: bool)
    ensures
        b == gdbus_reply_ok(success, stdout@),
{
    if !success {
        return false;
    }
    let n = stdout.unicode_len();
    let mut k: usize = 0;
    while k < n && char_is_whitespace(stdout.get_char(k))
        invariant
            k <= n,
            n == stdout@.len(),
            forall|i: int| 0 <= i < k ==> is_whitespace(#[trigger] stdout@[i]),
        decreases n - k,
    {
        k += 1;
    }
    proof {
        lemma_trim_start_skip(stdout@, k as int);
    }
    let ghost t = stdout@.subrange(k as int, n as int);
    assert(trim_start(t) == t);
    if n - k < 6 {
        return true;
    }
    let expected = ['(', 'f', 'a', 'l', 's', 'e'];
    let mut j: usize = 0;
    while j < 6
        invariant
            j <= 6,
            k + 6 <= n,
            n == stdout@.len(),
            t == stdout@.subrange(k as int, n as int),
            trim_start(stdout@) == t,
            success,
            expected@ == seq!['(', 'f', 'a', 'l', 's', 'e'],
            forall|i: int| 0 <= i < j ==> t[i] == expected@[i],
        decreases 6 - j,
    {
        if stdout.get_char(k + j) != expected[j] {
            assert(t.subrange(0, 6)[j as int] != seq!['(', 'f', 'a', 'l', 's', 'e'][j as int]);
            return true;
        }
        j += 1;
    }
    assert(t.subrange(0, 6) =~= seq!['(', 'f', 'a', 'l', 's', 'e']);
    false
}

/// What to do after one screen-cast attempt.
#[derive(Debug, Clone, Copy, PartialEq, Eq, Structural)]
pub enum ScreencastStep {
    /// Every stream delivered a frame: use the monitors as they are.
    Accept,
    /// Some stream delivered no frame although a restore token was used: the
    /// token is stale, so try once more without it.
    RetryWithoutToken,
    /// Some stream delivered no frame: capture those monitors by cropping a
    /// whole-desktop screenshot.
    CropFallback,
}

pub fn screencast_step(used_token: bool, uncaptured: usize) -> (r: ScreencastStep)
    ensures
        uncaptured > 0 && used_token ==> r == ScreencastStep::RetryWithoutToken,
        uncaptured > 0 && !used_token ==> r == ScreencastStep::CropFallback,
        uncaptured == 0 ==> r == ScreencastStep::Accept,
{
    if uncaptured > 0 && used_token {
        ScreencastStep::RetryWithoutToken
    } else if uncaptured > 0 {
        ScreencastStep::CropFallback
    } else {
        ScreencastStep::Accept
    }
}

} // verus!

verus! {

/// The ways a shot of the whole desktop is taken on Wayland, in the order they
/// are tried. Of the whole-screen shots, the desktop portal comes first and
/// GNOME Shell's D-Bus call is its fallback, then grim.
#[derive(Debug, Clone, Copy, PartialEq, Eq, Structural)]
pub enum WaylandSource {
    /// One shot of the whole desktop, split by the monitors' geometry.
    DesktopSplit,
    /// The ScreenCast portal, through PipeWire.
    Screencast,
    /// The screenshot portal, without asking the user.
    Portal,
    /// GNOME Shell's screenshot call on D-Bus.
    GnomeShell,
    /// The grim tool of wlroots compositors.
    Grim,
}

/// The place of a source in the order of trying.
pub open spec fn wayland_rank(s: WaylandSource) -> int {
    match s {
        WaylandSource::DesktopSplit => 0,
        WaylandSource::Screencast => 1,
        WaylandSource::Portal => 2,
        WaylandSource::GnomeShell => 3,
        WaylandSource::Grim => 4,
    }
}

/// The first source to try: the split desktop shot when the monitors'
/// geometry is known, else the ScreenCast portal.
pub fn first_wayland_source(have_monitor_geometry: bool) -> (r: WaylandSource)
    ensures
        have_monitor_geometry ==> r == WaylandSource::DesktopSplit,
        !have_monitor_geometry ==> r == WaylandSource::Screencast,
{
    if have_monitor_geometry {
        WaylandSource::DesktopSplit
    } else {
        WaylandSource::Screencast
    }
}

/// The source to try once `failed` has failed, or `None` when every source has
/// failed and the capture is given up. Each source comes later in the order
/// than the one before it, so none is tried twice.
pub fn wayland_source_after(failed: WaylandSource) -> (r: Option<WaylandSource>)
    ensures
        failed == WaylandSource::DesktopSplit ==> r == Some(WaylandSource::Screencast),
        failed == WaylandSource::Screencast ==> r == Some(WaylandSource::Portal),
        failed == WaylandSource::Portal ==> r == Some(WaylandSource::GnomeShell),
        failed == WaylandSource::GnomeShell ==> r == Some(WaylandSource::Grim),
        failed == WaylandSource::Grim ==> r is None,
        r matches Some(next) ==> wayland_rank(next) == wayland_rank(failed) + 1,
{
    match failed {
        WaylandSource::DesktopSplit => Some(WaylandSource::Screencast),
        WaylandSource::Screencast => Some(WaylandSource::Portal),
        WaylandSource::Portal => Some(WaylandSource::GnomeShell),
        WaylandSource::GnomeShell => Some(WaylandSource::Grim),
        WaylandSource::Grim => None,
    }
}

} // verus!

verus! {

/// Reads the base64 text of a PNG (as the front end and older history items
/// send it) into the PNG's bytes.
pub fn png_from_base64(text: &str) -> (r: Result<Vec<u8>, String>)
    ensures
        match r {
            Ok(b) => crate::codec::base64_bytes(text@) == Ok::<Seq<u8>, Seq<char>>(b@),
            Err(e) => crate::codec::base64_bytes(text@) == Err::<Seq<u8>, Seq<char>>(e@),
        },
{
    crate::codec::base64_decode(text)
}

/// Decodes a PNG into the 8-bit RGBA pixels that go on the clipboard.
pub fn clipboard_image(png_bytes: &[u8]) -> (r: Result<RgbaPixels, String>)
    ensures
        match r {
            Ok(p) => decoded_image(png_bytes@) == Ok::<(u32, u32, Seq<u8>), Seq<char>>((p.width, p.height, p.data@))
                && p.data@.len() == 4 * p.width * p.height,
            Err(e) => decoded_image(png_bytes@) == Err::<(u32, u32, Seq<u8>), Seq<char>>(e@),
        },
{
    decode_rgba(png_bytes)
}

} // verus!

verus! {

/// What processing a whole image file gives: the image, in the file's own
/// colour type, is processed at its own size.
pub open spec fn processed_file(data: Seq<u8>) -> Result<(u32, u32, Seq<char>, Seq<char>), CaptureFailure> {
    match loaded_size(data) {
        Err(e) => Err(CaptureFailure::ImageProcessing("Imagen inválida: "@ + e)),
        Ok(size) => match processed_image(ImageSource::File(data)) {
            Err(f) => Err(f),
            Ok(p) => Ok((size.0, size.1, p.0, p.1)),
        },
    }
}

/// Turns a captured image file (as the screenshot portal writes it) into a
/// `CaptureResult` of the image's own size.
pub fn process_image_file(data: &[u8]) -> (r: Result<CaptureResult, CaptureError>)
    ensures
        match r {
            Ok(c) => processed_file(data@) == Ok::<(u32, u32, Seq<char>, Seq<char>), CaptureFailure>(
                (c.width, c.height, c.content@, c.thumbnail@),
            ),
            Err(e) => processed_file(data@) == Err::<(u32, u32, Seq<char>, Seq<char>), CaptureFailure>(e@),
        },
{
    let img = match load_image(data) {
        Ok(p) => p,
        Err(e) => return Err(CaptureError::ImageProcessing(prefixed("Imagen inválida: ", &e))),
    };
    let w = img.width();
    let h = img.height();
    process_image(&img, w, h)
}

} // verus!
