use aurora_screenshots::capture::{first_wayland_source, wayland_source_after, WaylandSource};
use aurora_screenshots::capture::{
    clipboard_image, crop_desktop_region, detect_display_server, encode_screen_capture,
    finish_region_capture, gdbus_screenshot_succeeded, generate_thumbnail_b64, image_bytes_to_monitor_captures,
    png_from_base64, raw_pixels_to_monitor_capture, region_origin_in_monitor, screencast_step,
    split_image_by_monitors, DisplayServer, ScreencastStep,
};
use aurora_screenshots::error::CaptureError;
use aurora_screenshots::pixels::{crop_imm, quads_to_rgba, PixelFormat, RgbaPixels};
use base64::Engine as _;

fn png_of(width: u32, height: u32) -> Vec<u8> {
    let img = image::RgbaImage::from_fn(width, height, |x, y| image::Rgba([x as u8, y as u8, 7, 255]));
    let mut buf = std::io::Cursor::new(Vec::new());
    image::DynamicImage::ImageRgba8(img).write_to(&mut buf, image::ImageFormat::Png).unwrap();
    buf.into_inner()
}

fn b64_image_size(text: &str) -> (u32, u32) {
    let bytes = base64::engine::general_purpose::STANDARD.decode(text).unwrap();
    let img = image::load_from_memory(&bytes).unwrap();
    (img.width(), img.height())
}

#[test]
fn wayland_wins_over_x11() {
    assert_eq!(detect_display_server(true, true).unwrap(), DisplayServer::Wayland);
    assert_eq!(detect_display_server(true, false).unwrap(), DisplayServer::Wayland);
    assert_eq!(detect_display_server(false, true).unwrap(), DisplayServer::X11);
    assert!(matches!(detect_display_server(false, false), Err(CaptureError::NoDisplay)));
}

#[test]
fn split_cuts_one_jpeg_per_monitor() {
    let png = png_of(40, 20);
    let shots = split_image_by_monitors(&png, &[(0, 0, 20, 20), (20, 0, 30, 20)]).unwrap();
    assert_eq!(shots.len(), 2);
    assert_eq!((shots[0].x, shots[0].y, shots[0].width, shots[0].height), (0, 0, 20, 20));
    assert_eq!((shots[1].x, shots[1].y, shots[1].width, shots[1].height), (20, 0, 20, 20));
    assert_eq!(b64_image_size(&shots[0].data), (20, 20));
    assert_eq!(b64_image_size(&shots[1].data), (20, 20));
}

#[test]
fn split_keeps_the_monitor_position_but_clamps_the_crop() {
    let png = png_of(10, 10);
    let shots = split_image_by_monitors(&png, &[(-5, -5, 8, 8)]).unwrap();
    assert_eq!((shots[0].x, shots[0].y, shots[0].width, shots[0].height), (-5, -5, 8, 8));
}

#[test]
fn split_with_every_monitor_outside_fails() {
    let png = png_of(10, 10);
    match split_image_by_monitors(&png, &[(10, 0, 5, 5), (0, 30, 5, 5)]) {
        Err(CaptureError::Capture(msg)) => assert_eq!(msg, "Ningún monitor quedó dentro de la imagen capturada"),
        other => panic!("unexpected {other:?}"),
    }
}

#[test]
fn split_of_garbage_fails_to_decode() {
    match split_image_by_monitors(b"not an image", &[(0, 0, 5, 5)]) {
        Err(CaptureError::ImageProcessing(msg)) => assert!(msg.starts_with("Imagen inválida: ")),
        other => panic!("unexpected {other:?}"),
    }
}

#[test]
fn thumbnail_fits_240_by_160() {
    let thumb = generate_thumbnail_b64(&png_of(480, 320)).unwrap();
    assert_eq!(b64_image_size(&thumb), (240, 160));
    let small = generate_thumbnail_b64(&png_of(100, 400)).unwrap();
    assert_eq!(b64_image_size(&small), (40, 160));
}

#[test]
fn region_capture_gives_png_and_thumbnail() {
    let raw: Vec<u8> = (0..(30 * 20 * 4)).map(|i| (i % 251) as u8).collect();
    let r = finish_region_capture(raw.clone(), 30, 20).unwrap();
    assert_eq!((r.width, r.height), (30, 20));
    let png = base64::engine::general_purpose::STANDARD.decode(&r.content).unwrap();
    let img = image::load_from_memory(&png).unwrap().to_rgba8();
    assert_eq!(img.into_raw(), raw);
    assert_eq!(b64_image_size(&r.thumbnail), (240, 160));
}

#[test]
fn region_capture_with_short_buffer_fails() {
    match finish_region_capture(vec![0; 10], 30, 20) {
        Err(CaptureError::ImageProcessing(msg)) => assert_eq!(msg, "Buffer RGBA inválido"),
        other => panic!("unexpected {other:?}"),
    }
}

#[test]
fn region_origin_is_relative_to_the_monitor() {
    assert_eq!(region_origin_in_monitor(2000, 50, 1920, 0), (80, 50));
    assert_eq!(region_origin_in_monitor(-100, 10, -1280, 0), (1180, 10));
}

#[test]
fn whole_image_becomes_one_monitor_at_origin() {
    let shots = image_bytes_to_monitor_captures(&png_of(12, 9)).unwrap();
    assert_eq!(shots.len(), 1);
    assert_eq!((shots[0].x, shots[0].y, shots[0].width, shots[0].height), (0, 0, 12, 9));
    assert_eq!(b64_image_size(&shots[0].data), (12, 9));
}

#[test]
fn bgra_frame_becomes_a_jpeg_monitor() {
    let frame = vec![10u8; 4 * 4 * 2];
    let m = raw_pixels_to_monitor_capture(frame, 4, 2, &PixelFormat::Bgra, 100, -20).unwrap();
    assert_eq!((m.x, m.y, m.width, m.height), (100, -20, 4, 2));
    assert_eq!(b64_image_size(&m.data), (4, 2));
}

#[test]
fn rgb_frame_becomes_a_jpeg_monitor() {
    let m = raw_pixels_to_monitor_capture(vec![1u8; 3 * 5 * 5], 5, 5, &PixelFormat::Rgb, 0, 0).unwrap();
    assert_eq!(b64_image_size(&m.data), (5, 5));
}

#[test]
fn short_frames_are_refused_by_layout() {
    let cases = [
        (PixelFormat::Rgba, "Buffer RGBA inválido"),
        (PixelFormat::Rgbx, "Buffer RGBx inválido"),
        (PixelFormat::Bgra, "Buffer BGRA inválido"),
        (PixelFormat::Bgrx, "Buffer BGRx inválido"),
        (PixelFormat::Rgb, "Buffer RGB inválido"),
    ];
    for (fmt, msg) in cases {
        assert_eq!(raw_pixels_to_monitor_capture(vec![0u8; 7], 2, 2, &fmt, 0, 0).unwrap_err(), msg);
    }
}

#[test]
fn unsupported_layout_is_named() {
    let err = raw_pixels_to_monitor_capture(vec![0u8; 64], 2, 2, &PixelFormat::Unsupported("NV12".to_string()), 0, 0)
        .unwrap_err();
    assert_eq!(err, "Formato de video no soportado: NV12");
}

#[test]
fn bgra_reordering_swaps_red_and_blue_and_undoes_itself() {
    let d = [1u8, 2, 3, 4, 5, 6, 7, 8];
    let once = quads_to_rgba(&d, &PixelFormat::Bgra);
    assert_eq!(once, vec![3, 2, 1, 4, 7, 6, 5, 8]);
    let twice = quads_to_rgba(&once, &PixelFormat::Bgra);
    assert_eq!(twice, d.to_vec());
}

#[test]
fn padded_layouts_become_opaque_and_partial_pixels_are_dropped() {
    assert_eq!(quads_to_rgba(&[1, 2, 3, 0, 9], &PixelFormat::Rgbx), vec![1, 2, 3, 255]);
    assert_eq!(quads_to_rgba(&[1, 2, 3, 0], &PixelFormat::Bgrx), vec![3, 2, 1, 255]);
}

#[test]
fn crop_copies_the_clamped_region() {
    let data: Vec<u8> = (0..(3 * 2 * 4)).map(|i| i as u8).collect();
    let px = RgbaPixels { width: 3, height: 2, data };
    let c = crop_imm(&px, 1, 1, 5, 5);
    assert_eq!((c.width, c.height), (2, 1));
    assert_eq!(c.data, vec![16, 17, 18, 19, 20, 21, 22, 23]);
    let whole = crop_imm(&px, 0, 0, 3, 2);
    assert_eq!(whole.data, px.data);
}

#[test]
fn x11_shot_is_placed_relative_to_the_desktop_origin() {
    let m = encode_screen_capture(vec![200u8; 6 * 4 * 4], 1920, 100, 6, 4, -1280, 0).unwrap();
    assert_eq!((m.x, m.y, m.width, m.height), (3200, 100, 6, 4));
    assert!(matches!(
        encode_screen_capture(vec![0u8; 3], 0, 0, 6, 4, 0, 0),
        Err(CaptureError::ImageProcessing(_))
    ));
}

#[test]
fn desktop_region_is_cropped_to_the_image() {
    let m = crop_desktop_region(&png_of(30, 30), 20, 10, 50, 50).unwrap();
    assert_eq!((m.x, m.y, m.width, m.height), (20, 10, 10, 20));
    assert_eq!(b64_image_size(&m.data), (10, 20));
}

#[test]
fn gdbus_reply_is_checked() {
    assert!(gdbus_screenshot_succeeded(true, "(true, '/tmp/x.png')\n"));
    assert!(!gdbus_screenshot_succeeded(true, "  \n(false, '')"));
    assert!(!gdbus_screenshot_succeeded(true, "\u{3000}(false"));
    assert!(!gdbus_screenshot_succeeded(false, "(true, '')"));
    assert!(gdbus_screenshot_succeeded(true, "(fals"));
    assert!(gdbus_screenshot_succeeded(true, ""));
}

#[test]
fn screencast_retries_only_with_a_stale_token() {
    assert_eq!(screencast_step(true, 1), ScreencastStep::RetryWithoutToken);
    assert_eq!(screencast_step(false, 2), ScreencastStep::CropFallback);
    assert_eq!(screencast_step(true, 0), ScreencastStep::Accept);
    assert_eq!(screencast_step(false, 0), ScreencastStep::Accept);
}

#[test]
fn base64_png_is_decoded() {
    assert_eq!(png_from_base64("aGk=").unwrap(), b"hi".to_vec());
    assert!(png_from_base64("@@@").is_err());
}

#[test]
fn clipboard_image_is_rgba() {
    let p = clipboard_image(&png_of(3, 2)).unwrap();
    assert_eq!((p.width, p.height, p.data.len()), (3, 2, 24));
    assert_eq!(&p.data[0..4], &[0, 0, 7, 255]);
    assert!(clipboard_image(b"xx").is_err());
}

#[test]
fn image_file_is_processed_at_its_own_size() {
    let r = aurora_screenshots::capture::process_image_file(&png_of(16, 8)).unwrap();
    assert_eq!((r.width, r.height), (16, 8));
    assert_eq!(b64_image_size(&r.content), (16, 8));
    assert_eq!(b64_image_size(&r.thumbnail), (240, 120));
    match aurora_screenshots::capture::process_image_file(b"nope") {
        Err(CaptureError::ImageProcessing(msg)) => assert!(msg.starts_with("Imagen inválida: ")),
        other => panic!("unexpected {other:?}"),
    }
}

fn png_with(img: image::DynamicImage) -> Vec<u8> {
    let mut buf = std::io::Cursor::new(Vec::new());
    img.write_to(&mut buf, image::ImageFormat::Png).unwrap();
    buf.into_inner()
}

fn b64_color(text: &str) -> image::ColorType {
    let bytes = base64::engine::general_purpose::STANDARD.decode(text).unwrap();
    image::load_from_memory(&bytes).unwrap().color()
}

#[test]
fn image_file_keeps_its_colour_type() {
    let rgb = image::RgbImage::from_fn(20, 10, |x, y| image::Rgb([x as u8, y as u8, 3]));
    let r = aurora_screenshots::capture::process_image_file(&png_with(image::DynamicImage::ImageRgb8(rgb))).unwrap();
    assert_eq!(b64_color(&r.content), image::ColorType::Rgb8);
    assert_eq!(b64_color(&r.thumbnail), image::ColorType::Rgb8);
    let deep = image::ImageBuffer::<image::Rgb<u16>, Vec<u16>>::from_fn(4, 4, |x, y| image::Rgb([x as u16 * 4000, y as u16, 9]));
    let r = aurora_screenshots::capture::process_image_file(&png_with(image::DynamicImage::ImageRgb16(deep))).unwrap();
    assert_eq!(b64_color(&r.content), image::ColorType::Rgb16);
}

#[test]
fn thumbnail_keeps_the_colour_type() {
    let gray = image::GrayImage::from_fn(480, 320, |x, _| image::Luma([x as u8]));
    let t = generate_thumbnail_b64(&png_with(image::DynamicImage::ImageLuma8(gray))).unwrap();
    assert_eq!(b64_color(&t), image::ColorType::L8);
    assert_eq!(b64_image_size(&t), (240, 160));
}

#[test]
fn capture_content_reads_back_into_its_png() {
    let raw: Vec<u8> = (0..(4 * 3 * 4)).map(|i| i as u8).collect();
    let r = finish_region_capture(raw.clone(), 4, 3).unwrap();
    let png = png_from_base64(&r.content).unwrap();
    let img = image::load_from_memory(&png).unwrap();
    assert_eq!(img.color(), image::ColorType::Rgba8);
    assert_eq!(img.to_rgba8().into_raw(), raw);
}

#[test]
fn wayland_sources_are_tried_in_order_then_given_up() {
    assert_eq!(first_wayland_source(true), WaylandSource::DesktopSplit);
    assert_eq!(first_wayland_source(false), WaylandSource::Screencast);
    let mut order = vec![WaylandSource::DesktopSplit];
    while let Some(next) = wayland_source_after(*order.last().unwrap()) {
        order.push(next);
    }
    assert_eq!(
        order,
        vec![
            WaylandSource::DesktopSplit,
            WaylandSource::Screencast,
            WaylandSource::Portal,
            WaylandSource::GnomeShell,
            WaylandSource::Grim
        ]
    );
}
