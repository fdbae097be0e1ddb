use aurora_screenshots::error::CaptureError;
use aurora_screenshots::geometry::{
    clamp_region_to_image, find_monitor_index, monitors_bounds, physical_geometry, plan_monitor_crops,
    CropPlan,
};

#[test]
fn bounds_span_side_by_side_monitors() {
    let ms = [(0, 0, 1920, 1080), (1920, 0, 2560, 1440)];
    assert_eq!(monitors_bounds(&ms).unwrap(), (0, 0, 4480, 1440));
}

#[test]
fn bounds_with_negative_origin() {
    let ms = [(-1280, 200, 1280, 1024), (0, 0, 1920, 1080)];
    assert_eq!(monitors_bounds(&ms).unwrap(), (-1280, 0, 3200, 1224));
}

#[test]
fn bounds_contain_every_monitor() {
    let ms = [(100, -50, 800, 600), (-300, 400, 640, 480), (900, 900, 10, 10)];
    let (x, y, w, h) = monitors_bounds(&ms).unwrap();
    for &(mx, my, mw, mh) in &ms {
        assert!(x <= mx && y <= my);
        assert!(mx as i64 + mw as i64 <= x as i64 + w as i64);
        assert!(my as i64 + mh as i64 <= y as i64 + h as i64);
    }
}

#[test]
fn bounds_without_monitors_fail() {
    match monitors_bounds(&[]) {
        Err(CaptureError::Capture(msg)) => assert_eq!(msg, "No se encontraron pantallas"),
        other => panic!("unexpected {other:?}"),
    }
}

#[test]
fn clamp_follows_crop_imm() {
    assert_eq!(clamp_region_to_image(10, 20, 100, 100, 50, 60), (10, 20, 40, 40));
    assert_eq!(clamp_region_to_image(70, 80, 5, 5, 50, 60), (50, 60, 0, 0));
    assert_eq!(clamp_region_to_image(0, 0, 50, 60, 50, 60), (0, 0, 50, 60));
}

#[test]
fn crop_plans_skip_monitors_outside_the_image() {
    let ms = [(0, 0, 1920, 1080), (1920, 0, 1920, 1080), (5000, 0, 100, 100), (-10, -10, 30, 30)];
    let plans = plan_monitor_crops(&ms, 3000, 1000);
    assert_eq!(
        plans,
        vec![
            CropPlan { x: 0, y: 0, left: 0, top: 0, width: 1920, height: 1000 },
            CropPlan { x: 1920, y: 0, left: 1920, top: 0, width: 1080, height: 1000 },
            CropPlan { x: -10, y: -10, left: 0, top: 0, width: 30, height: 30 },
        ]
    );
}

#[test]
fn physical_geometry_scales() {
    assert_eq!(physical_geometry(1920, 0, 1280, 720, 2), (3840, 0, 2560, 1440));
}

#[test]
fn monitor_found_by_logical_or_physical_origin() {
    let ms = [Some((0, 0, 2)), None, Some((1920, 0, 2)), Some((3840, 0, 1))];
    assert_eq!(find_monitor_index(&ms, 1920, 0), Some(2));
    assert_eq!(find_monitor_index(&ms, 3840, 0), Some(2));
    assert_eq!(find_monitor_index(&ms, 0, 0), Some(0));
    assert_eq!(find_monitor_index(&ms, 5, 5), None);
}

#[test]
fn bounds_read_widths_as_i32() {
    assert_eq!(monitors_bounds(&[(0, 0, 3_000_000_000, 10)]).unwrap(), (0, 0, 3_000_000_000, 10));
    assert_eq!(monitors_bounds(&[(0, 0, 3_000_000_000, 10), (10, 0, 20, 10)]).unwrap(), (0, 0, 30, 10));
}
