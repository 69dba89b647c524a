use xhman::config::Config;
use xhman::display::{passes_filter, preferred_logical_size, DisplayDescriptor, DisplayMode};
use xhman::manager::{ConfigureError, SurfaceManager, SurfaceState};

fn display(id: u32, name: Option<&str>) -> DisplayDescriptor {
    DisplayDescriptor {
        id,
        name: name.map(|n| n.to_string()),
        scale: 1,
        logical_size: Some((1920, 1080)),
        modes: Vec::new(),
    }
}

fn mode(width: u32, height: u32, current: bool) -> DisplayMode {
    DisplayMode { width, height, current }
}

fn state(handle: u32, scale: i32, logical_size: (u32, u32)) -> SurfaceState {
    SurfaceState { handle, scale, logical_size }
}

fn manager(outputs: &[&str]) -> SurfaceManager {
    SurfaceManager::new(Config {
        outputs: outputs.iter().map(|o| o.to_string()).collect(),
        ..Config::initial()
    })
}

fn reconcile(m: &mut SurfaceManager, d: &DisplayDescriptor, handle: u32) -> bool {
    match m.reconcile(d) {
        Some(plan) => m.adopt(plan, handle),
        None => false,
    }
}

#[test]
fn logical_size_of_the_compositor_comes_first() {
    let mut d = display(1, None);
    d.logical_size = Some((2560, 1440));
    d.modes = vec![mode(3840, 2160, true)];
    assert_eq!(preferred_logical_size(&d), (2560, 1440));
}

#[test]
fn current_mode_comes_second() {
    let mut d = display(1, None);
    d.logical_size = None;
    d.modes = vec![mode(640, 480, false), mode(3840, 2160, true), mode(1024, 768, true)];
    assert_eq!(preferred_logical_size(&d), (3840, 2160));
    d.modes = vec![mode(800, 600, true)];
    assert_eq!(preferred_logical_size(&d), (800, 600));
}

#[test]
fn fallback_size_comes_last() {
    let mut d = display(1, None);
    d.logical_size = None;
    assert_eq!(preferred_logical_size(&d), (1920, 1080));
    d.modes = vec![mode(640, 480, false), mode(800, 600, false)];
    assert_eq!(preferred_logical_size(&d), (1920, 1080));
}

#[test]
fn empty_filter_passes_everything() {
    assert!(passes_filter(&Vec::new(), &Some("HDMI-1".to_string())));
    assert!(passes_filter(&Vec::new(), &None));
    assert!(passes_filter(&Vec::new(), &Some(String::new())));
}

#[test]
fn filter_matches_names_exactly() {
    let wanted = vec!["eDP-1".to_string(), "DP-2".to_string()];
    assert!(passes_filter(&wanted, &Some("eDP-1".to_string())));
    assert!(passes_filter(&wanted, &Some("DP-2".to_string())));
    assert!(!passes_filter(&wanted, &Some("HDMI-1".to_string())));
    assert!(!passes_filter(&wanted, &Some("edp-1".to_string())));
    assert!(!passes_filter(&wanted, &Some("eDP-1 ".to_string())));
    assert!(!passes_filter(&wanted, &Some("eDP-".to_string())));
    assert!(!passes_filter(&wanted, &Some(String::new())));
    assert!(!passes_filter(&wanted, &None));
}

#[test]
fn filtered_displays_get_no_surface() {
    let mut m = manager(&["eDP-1"]);
    assert_eq!(m.reconcile(&display(1, Some("HDMI-1"))), None);
    assert_eq!(m.reconcile(&display(2, None)), None);
    assert!(!reconcile(&mut m, &display(1, Some("HDMI-1")), 10));
    assert!(!reconcile(&mut m, &display(2, None), 11));
    assert_eq!(m.len(), 0);
    assert_eq!(m.surface(1), None);
    assert_eq!(m.surface(2), None);
    assert!(reconcile(&mut m, &display(3, Some("eDP-1")), 12));
    assert_eq!(m.len(), 1);
    assert!(m.surface(3).is_some());
}

#[test]
fn a_new_display_gets_a_plan() {
    let m = manager(&[]);
    let mut d = display(7, Some("DP-1"));
    d.scale = 2;
    d.logical_size = None;
    d.modes = vec![mode(2560, 1440, true)];
    let plan = m.reconcile(&d).unwrap();
    assert_eq!(plan.display_id(), 7);
    assert_eq!(plan.buffer_scale(), 2);
    assert_eq!(plan.logical_size(), (2560, 1440));
}

#[test]
fn buffer_scale_is_at_least_one() {
    let m = manager(&[]);
    for scale in [0, -3, i32::MIN] {
        let mut d = display(7, None);
        d.scale = scale;
        assert_eq!(m.reconcile(&d).unwrap().buffer_scale(), 1);
    }
    let mut d = display(7, None);
    d.scale = 3;
    assert_eq!(m.reconcile(&d).unwrap().buffer_scale(), 3);
}

#[test]
fn reconcile_twice_keeps_one_surface() {
    let mut m = manager(&[]);
    let d = display(5, Some("eDP-1"));
    assert!(reconcile(&mut m, &d, 40));
    let first = m.surface(5);
    assert_eq!(first, Some(SurfaceState { handle: 40, scale: 1, logical_size: (1920, 1080) }));
    assert_eq!(m.reconcile(&d), None);
    assert!(!reconcile(&mut m, &d, 41));
    assert_eq!(m.len(), 1);
    assert_eq!(m.surface(5), first);
    assert_eq!(m.owner(40), Some(5));
    assert_eq!(m.owner(41), None);
}

#[test]
fn a_changed_display_keeps_its_surface() {
    let mut m = manager(&[]);
    let mut d = display(5, Some("eDP-1"));
    assert!(reconcile(&mut m, &d, 40));
    d.scale = 2;
    d.logical_size = Some((100, 100));
    d.name = Some("other".to_string());
    assert_eq!(m.reconcile(&d), None);
    assert_eq!(m.surface(5), Some(state(40, 1, (1920, 1080))));
}

#[test]
fn adopt_refuses_a_second_surface_or_a_used_handle() {
    let mut m = manager(&[]);
    let first = m.reconcile(&display(1, None)).unwrap();
    let second = m.reconcile(&display(2, None)).unwrap();
    assert!(m.adopt(first, 100));
    assert!(!m.adopt(first, 101));
    assert!(!m.adopt(second, 100));
    assert_eq!(m.len(), 1);
    assert_eq!(m.owner(100), Some(1));
    assert_eq!(m.owner(101), None);
    assert_eq!(m.surface(2), None);
    assert!(m.adopt(second, 101));
    assert_eq!(m.len(), 2);
}

#[test]
fn adopt_stores_a_scale_of_at_least_one() {
    let mut m = manager(&[]);
    let mut d = display(1, None);
    d.scale = 0;
    assert!(reconcile(&mut m, &d, 9));
    assert_eq!(m.surface(1).unwrap().scale, 1);
    d.id = 2;
    d.scale = 4;
    assert!(reconcile(&mut m, &d, 10));
    assert_eq!(m.surface(2).unwrap().scale, 4);
}

#[test]
fn removed_display_has_no_surface() {
    let mut m = manager(&[]);
    assert!(reconcile(&mut m, &display(1, None), 10));
    assert!(reconcile(&mut m, &display(2, None), 20));
    let gone = m.on_display_removed(1);
    assert_eq!(gone, Some(SurfaceState { handle: 10, scale: 1, logical_size: (1920, 1080) }));
    assert_eq!(m.surface(1), None);
    assert_eq!(m.owner(10), None);
    assert_eq!(m.len(), 1);
    assert_eq!(m.surface(2), Some(state(20, 1, (1920, 1080))));
    assert_eq!(m.owner(20), Some(2));
}

#[test]
fn removing_twice_is_harmless() {
    let mut m = manager(&[]);
    assert!(reconcile(&mut m, &display(1, None), 10));
    assert!(m.on_display_removed(1).is_some());
    assert_eq!(m.on_display_removed(1), None);
    assert_eq!(m.on_display_removed(99), None);
    assert_eq!(m.len(), 0);
}

#[test]
fn close_and_remove_in_either_order() {
    let mut m = manager(&[]);
    assert!(reconcile(&mut m, &display(1, None), 10));
    assert_eq!(m.on_surface_closed(10), Some(1));
    assert_eq!(m.on_display_removed(1), None);
    assert_eq!(m.len(), 0);
    assert!(reconcile(&mut m, &display(1, None), 11));
    assert!(m.on_display_removed(1).is_some());
    assert_eq!(m.on_surface_closed(11), None);
    assert_eq!(m.on_surface_closed(10), None);
    assert_eq!(m.len(), 0);
}

#[test]
fn closing_frees_display_and_handle() {
    let mut m = manager(&[]);
    let d = display(1, None);
    assert!(reconcile(&mut m, &d, 10));
    assert_eq!(m.on_surface_closed(10), Some(1));
    assert_eq!(m.surface(1), None);
    assert!(reconcile(&mut m, &d, 10));
    assert_eq!(m.owner(10), Some(1));
}

#[test]
fn scale_change_is_remembered() {
    let mut m = manager(&[]);
    assert!(reconcile(&mut m, &display(1, None), 10));
    assert!(reconcile(&mut m, &display(2, None), 20));
    assert_eq!(m.on_scale_changed(10, 3), Some(1));
    assert_eq!(m.surface(1), Some(state(10, 3, (1920, 1080))));
    assert_eq!(m.surface(2).unwrap().scale, 1);
    assert_eq!(m.on_scale_changed(10, 0), Some(1));
    assert_eq!(m.surface(1).unwrap().scale, 1);
    assert_eq!(m.on_scale_changed(10, -7), Some(1));
    assert_eq!(m.surface(1).unwrap().scale, 1);
    assert_eq!(m.on_scale_changed(99, 2), None);
    assert_eq!(m.len(), 2);
}

#[test]
fn configure_uses_stored_size_and_scale() {
    let mut m = manager(&[]);
    let mut d = display(1, None);
    d.scale = 2;
    assert!(reconcile(&mut m, &d, 10));
    let r = m.on_configure(10, (0, 0)).unwrap();
    assert_eq!(r.display_id, 1);
    assert_eq!((r.geometry.logical_width(), r.geometry.logical_height()), (1920, 1080));
    assert_eq!((r.geometry.width(), r.geometry.height(), r.geometry.stride()), (3840, 2160, 15360));
    assert_eq!(r.geometry.scale(), 2);
    let r = m.on_configure(10, (1280, 0)).unwrap();
    assert_eq!((r.geometry.logical_width(), r.geometry.logical_height()), (1280, 1080));
    // nothing is remembered until the frame is drawn
    assert_eq!(m.surface(1).unwrap().logical_size, (1920, 1080));
}

#[test]
fn configure_of_an_unknown_surface() {
    let mut m = manager(&[]);
    assert_eq!(m.on_configure(10, (0, 0)).unwrap_err(), ConfigureError::UnknownSurface);
    assert!(reconcile(&mut m, &display(1, None), 10));
    assert_eq!(m.on_configure(11, (5, 5)).unwrap_err(), ConfigureError::UnknownSurface);
}

#[test]
fn configure_of_a_frame_that_is_too_large() {
    let mut m = manager(&[]);
    assert!(reconcile(&mut m, &display(1, None), 10));
    assert_eq!(m.on_configure(10, (u32::MAX, 1)).unwrap_err(), ConfigureError::TooLarge);
    assert_eq!(m.on_scale_changed(10, i32::MAX), Some(1));
    assert_eq!(m.on_configure(10, (0, 0)).unwrap_err(), ConfigureError::TooLarge);
}

#[test]
fn drawn_frame_sets_the_size_for_later() {
    let mut m = manager(&[]);
    assert!(reconcile(&mut m, &display(1, None), 10));
    let r = m.on_configure(10, (800, 600)).unwrap();
    m.on_frame_drawn(r.display_id, &r.geometry);
    assert_eq!(m.surface(1), Some(SurfaceState { handle: 10, scale: 1, logical_size: (800, 600) }));
    let r = m.on_configure(10, (0, 0)).unwrap();
    assert_eq!((r.geometry.width(), r.geometry.height()), (800, 600));
    let r = m.on_configure(10, (0, 480)).unwrap();
    m.on_frame_drawn(r.display_id, &r.geometry);
    assert_eq!(m.surface(1).unwrap().logical_size, (800, 480));
}

#[test]
fn drawn_frame_of_a_display_without_surface_changes_nothing() {
    let mut m = manager(&[]);
    assert!(reconcile(&mut m, &display(1, None), 10));
    let r = m.on_configure(10, (800, 600)).unwrap();
    m.on_frame_drawn(2, &r.geometry);
    assert_eq!(m.len(), 1);
    assert_eq!(m.surface(1).unwrap().logical_size, (1920, 1080));
    assert_eq!(m.surface(2), None);
}

#[test]
fn the_manager_keeps_its_settings() {
    let m = manager(&["eDP-1", "DP-3"]);
    assert_eq!(m.config().outputs, vec!["eDP-1".to_string(), "DP-3".to_string()]);
    assert_eq!(m.config().thickness, 2);
    assert_eq!(m.len(), 0);
}

#[test]
fn many_displays_have_one_surface_each() {
    let mut m = manager(&[]);
    for id in 0..200u32 {
        assert!(reconcile(&mut m, &display(id, None), 1000 + id));
    }
    for id in 0..200u32 {
        assert!(!reconcile(&mut m, &display(id, None), 5000 + id));
    }
    assert_eq!(m.len(), 200);
    for id in (0..200u32).step_by(2) {
        assert!(m.on_display_removed(id).is_some());
    }
    assert_eq!(m.len(), 100);
    for id in 0..200u32 {
        assert_eq!(m.owner(1000 + id), if id % 2 == 1 { Some(id) } else { None });
    }
}
