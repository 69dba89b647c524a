use xhman::color::{premultiplied_argb, Rgba};
use xhman::config::Config;
use xhman::crosshair::paint_crosshair;
use xhman::frame::{render_crosshair, Geometry};

fn config() -> Config {
    Config::initial()
}

fn sizes(g: &Geometry) -> (u32, u32, i32, u32, u32, u32) {
    (g.logical_width(), g.logical_height(), g.scale(), g.width(), g.height(), g.stride())
}

#[test]
fn requested_size_is_used() {
    let g = Geometry::resolve((1920, 1080), 1, (800, 600)).unwrap();
    assert_eq!(sizes(&g), (800, 600, 1, 800, 600, 3200));
}

#[test]
fn zero_request_reuses_the_stored_size() {
    let g = Geometry::resolve((1920, 1080), 1, (0, 0)).unwrap();
    assert_eq!(sizes(&g), (1920, 1080, 1, 1920, 1080, 7680));
}

#[test]
fn each_axis_is_resolved_on_its_own() {
    let g = Geometry::resolve((1920, 1080), 1, (0, 600)).unwrap();
    assert_eq!(sizes(&g), (1920, 600, 1, 1920, 600, 7680));
    let g = Geometry::resolve((1920, 1080), 1, (800, 0)).unwrap();
    assert_eq!(sizes(&g), (800, 1080, 1, 800, 1080, 3200));
}

#[test]
fn physical_size_is_logical_times_scale() {
    let g = Geometry::resolve((0, 0), 2, (1280, 720)).unwrap();
    assert_eq!(sizes(&g), (1280, 720, 2, 2560, 1440, 10240));
    let g = Geometry::resolve((100, 50), 3, (0, 0)).unwrap();
    assert_eq!(sizes(&g), (100, 50, 3, 300, 150, 1200));
}

#[test]
fn scale_below_one_counts_as_one() {
    for scale in [0, -1, i32::MIN] {
        let g = Geometry::resolve((10, 20), scale, (0, 0)).unwrap();
        assert_eq!(sizes(&g), (10, 20, 1, 10, 20, 40));
    }
}

#[test]
fn a_buffer_is_never_empty() {
    let g = Geometry::resolve((0, 0), 1, (0, 0)).unwrap();
    assert_eq!(sizes(&g), (0, 0, 1, 1, 1, 4));
    let g = Geometry::resolve((0, 7), 4, (0, 0)).unwrap();
    assert_eq!(sizes(&g), (0, 7, 4, 4, 28, 16));
}

#[test]
fn the_largest_frame_that_fits() {
    // rows of at most i32::MAX bytes: 536870911 pixels
    let g = Geometry::resolve((0, 0), 1, (536_870_911, i32::MAX as u32)).unwrap();
    assert_eq!(g.width(), 536_870_911);
    assert_eq!(g.stride(), 2_147_483_644);
    assert_eq!(g.height(), i32::MAX as u32);
}

#[test]
fn too_large_frames_are_refused() {
    assert!(Geometry::resolve((0, 0), 1, (536_870_912, 1)).is_none());
    assert!(Geometry::resolve((0, 0), 1, (1, i32::MAX as u32 + 1)).is_none());
    assert!(Geometry::resolve((u32::MAX, u32::MAX), 1, (0, 0)).is_none());
    assert!(Geometry::resolve((1920, 1080), i32::MAX, (0, 0)).is_none());
    assert!(Geometry::resolve((0, 0), 2, (268_435_456, 1)).is_none());
    assert!(Geometry::resolve((0, 0), 2, (268_435_455, 1)).is_some());
}

#[test]
fn render_clears_and_paints() {
    let cfg = config();
    let g = Geometry::resolve((100, 100), 1, (0, 0)).unwrap();
    let mut canvas = vec![0xABu8; 100 * 400];
    assert!(render_crosshair(&mut canvas, &g, &cfg));
    let mut want = vec![0u8; 100 * 400];
    paint_crosshair(&mut want, 100, 100, 400, &cfg);
    assert_eq!(canvas, want);
    let at = |x: usize, y: usize| &canvas[y * 400 + x * 4..y * 400 + x * 4 + 4];
    assert_eq!(at(50, 50), &[0, 0, 0, 0]);
    assert_eq!(at(40, 50), &premultiplied_argb(&cfg.color).to_le_bytes());
    assert_eq!(at(0, 0), &[0, 0, 0, 0]);
}

#[test]
fn render_clears_the_slack_behind_the_frame() {
    let cfg = config();
    let g = Geometry::resolve((10, 10), 1, (0, 0)).unwrap();
    let mut canvas = vec![0xABu8; 10 * 40 + 48];
    assert!(render_crosshair(&mut canvas, &g, &cfg));
    assert_eq!(&canvas[400..], &[0u8; 48][..]);
}

#[test]
fn render_at_scale_two_centres_on_the_buffer() {
    let cfg = Config { color: Rgba { r: 0, g: 0, b: 255, a: 255 }, ..config() };
    let g = Geometry::resolve((50, 40), 2, (0, 0)).unwrap();
    assert_eq!((g.width(), g.height(), g.stride()), (100, 80, 400));
    let mut canvas = vec![1u8; 80 * 400];
    assert!(render_crosshair(&mut canvas, &g, &cfg));
    let at = |x: usize, y: usize| &canvas[y * 400 + x * 4..y * 400 + x * 4 + 4];
    assert_eq!(at(50, 40), &[0, 0, 0, 0]);
    assert_eq!(at(50 - 6 - 1, 40), &[255, 0, 0, 255]);
    assert_eq!(at(50 + 6, 40), &[255, 0, 0, 255]);
    assert_eq!(at(50, 40 + 6 + 17), &[255, 0, 0, 255]);
    assert_eq!(at(50, 40 + 6 + 18), &[0, 0, 0, 0]);
}

#[test]
fn render_refuses_a_buffer_that_is_too_small() {
    let cfg = config();
    let g = Geometry::resolve((10, 10), 1, (0, 0)).unwrap();
    let mut canvas = vec![0xABu8; 399];
    assert!(!render_crosshair(&mut canvas, &g, &cfg));
    assert_eq!(canvas, vec![0xABu8; 399]);
    let mut none: Vec<u8> = Vec::new();
    assert!(!render_crosshair(&mut none, &g, &cfg));
    let mut exact = vec![0xABu8; 400];
    assert!(render_crosshair(&mut exact, &g, &cfg));
}
