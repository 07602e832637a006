use mission_center::blur_region::{capabilities_include_blur, region_from_edges, RegionState};

#[test]
fn the_blur_capability_is_the_lowest_bit() {
    assert!(capabilities_include_blur(1));
    assert!(capabilities_include_blur(3));
    assert!(!capabilities_include_blur(2));
    assert!(!capabilities_include_blur(0));
}

#[test]
fn empty_rectangles_are_no_region() {
    assert_eq!(region_from_edges(10, 20, 110, 70), Some((10, 20, 100, 50)));
    assert_eq!(region_from_edges(10, 20, 10, 70), None);
    assert_eq!(region_from_edges(10, 20, 110, 5), None);
}

#[test]
fn sidebar_regions_are_sent_only_when_they_change() {
    let mut state = RegionState::new();
    let sidebar = Some((0, 0, 200, 600));
    let content = Some((200, 0, 600, 600));
    assert!(state.update(true, false, true, sidebar, content, 800, 600));
    assert_eq!(state.blur_region, sidebar);
    assert_eq!(state.opaque_region, content);
    assert!(!state.update(true, false, true, sidebar, content, 800, 600));
    assert!(state.update(true, true, true, sidebar, content, 800, 600));
    assert_eq!(state.blur_region, None);
    assert_eq!(state.opaque_region, Some((0, 0, 800, 600)));
}

#[test]
fn a_whole_window_blur_has_no_opaque_region() {
    let mut state = RegionState::new();
    assert!(state.update_full(true, true, 640, 480));
    assert_eq!(state.blur_region, Some((0, 0, 640, 480)));
    assert!(!state.update_full(true, true, 640, 480));
    assert!(state.update_full(false, true, 640, 480));
    assert_eq!(state.blur_region, None);
    assert!(!state.update_full(true, false, 640, 480));
}
