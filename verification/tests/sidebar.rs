use mission_center::sidebar::{
    canonical_key, drop_hint_row, first_shown_in_category, migrate_hidden_graphs, DeviceOverride, merge_new_devices, move_in_saved_order,
    nearest_shown_row, nth_shown_row, prune_sidebar_order, refresh_sidebar_order, row_sort_key,
    saved_order_entries, saved_order_text, select_page_row, view_action_name,
    MAX_REMEMBERED_DEVICES,
};

fn names(list: &[&str]) -> Vec<String> {
    list.iter().map(|name| name.to_string()).collect()
}

fn present(list: &[&str]) -> Vec<String> {
    list.iter().map(|name| name.to_string()).collect()
}

#[test]
fn prune_leaves_a_short_order_alone() {
    let mut order = names(&["cpu", "memory", "disk-sda"]);
    prune_sidebar_order(&mut order, &present(&["cpu"]), 256);
    assert_eq!(order, names(&["cpu", "memory", "disk-sda"]));
}

#[test]
fn prune_drops_absent_devices_from_the_end() {
    let mut order = names(&["a", "b", "c", "d", "e"]);
    prune_sidebar_order(&mut order, &Vec::new(), 3);
    assert_eq!(order, names(&["a", "b", "c"]));
}

#[test]
fn prune_never_drops_a_present_device() {
    let mut order = names(&["a", "b", "c", "d", "e"]);
    prune_sidebar_order(&mut order, &present(&["d", "e"]), 3);
    assert_eq!(order, names(&["a", "d", "e"]));
}

#[test]
fn prune_keeps_every_present_device_even_above_the_cap() {
    let mut order = names(&["a", "b", "c", "d", "e"]);
    prune_sidebar_order(&mut order, &present(&["a", "b", "c", "d", "e"]), 2);
    assert_eq!(order, names(&["a", "b", "c", "d", "e"]));
}

#[test]
fn prune_keeps_the_cap_when_there_are_repeated_changes() {
    let mut order = names(&["cpu", "memory"]);

    for index in 0..1000 {
        let arriving = format!("net-veth{}", index);
        order.push(arriving.clone());
        prune_sidebar_order(
            &mut order,
            &present(&["cpu", "memory", arriving.as_str()]),
            MAX_REMEMBERED_DEVICES,
        );
    }

    assert_eq!(order.len(), MAX_REMEMBERED_DEVICES);
    assert!(order.contains(&"cpu".to_string()));
    assert!(order.contains(&"memory".to_string()));
    assert!(order.contains(&"net-veth999".to_string()));
}

fn merged(stored: &[&str], present: &[&str]) -> Vec<String> {
    let mut order = names(stored);
    merge_new_devices(&mut order, names(present));
    order
}

#[test]
fn merge_into_an_empty_order_gives_default_order() {
    assert_eq!(
        merged(
            &[],
            &["net-eth1", "cpu", "disk-sdb", "net-eth0", "disk-sda", "memory"]
        ),
        names(&["cpu", "memory", "disk-sda", "disk-sdb", "net-eth0", "net-eth1"])
    );
}

#[test]
fn merge_joins_a_sibling_the_user_dragged_to_the_top() {
    assert_eq!(
        merged(
            &["net-eth0", "cpu", "memory", "disk-sda"],
            &["cpu", "memory", "disk-sda", "net-eth0", "net-eth1"]
        ),
        names(&["net-eth0", "net-eth1", "cpu", "memory", "disk-sda"])
    );
}

#[test]
fn merge_leaves_the_top_row_alone() {
    assert_eq!(
        merged(
            &["net-eth1", "cpu", "memory"],
            &["cpu", "memory", "net-eth0", "net-eth1"]
        ),
        names(&["net-eth1", "net-eth0", "cpu", "memory"])
    );
}

#[test]
fn merge_rejoins_a_group_a_drag_split_in_two() {
    assert_eq!(
        merged(
            &["net-eth0", "cpu", "net-eth2", "memory"],
            &["cpu", "memory", "net-eth0", "net-eth1", "net-eth2"]
        ),
        names(&["net-eth0", "net-eth1", "cpu", "net-eth2", "memory"])
    );
}

#[test]
fn merge_uses_the_default_position_for_a_new_category() {
    assert_eq!(
        merged(&["net-eth0", "disk-sda"], &["cpu", "disk-sda", "net-eth0"]),
        names(&["cpu", "net-eth0", "disk-sda"])
    );
}

#[test]
fn merge_keeps_siblings_arriving_together_contiguous() {
    assert_eq!(
        merged(
            &["cpu", "net-eth5"],
            &["cpu", "net-eth1", "net-eth2", "net-eth5"]
        ),
        names(&["cpu", "net-eth5", "net-eth1", "net-eth2"])
    );
}

#[test]
fn merge_puts_a_newcomer_next_to_the_sibling_it_sorts_after() {
    assert_eq!(
        merged(
            &["net-eth0", "cpu", "memory", "disk-sda", "net-wlan0"],
            &[
                "cpu",
                "memory",
                "disk-sda",
                "net-eth0",
                "net-wlan0",
                "net-veth1a2b3c"
            ]
        ),
        names(&[
            "net-eth0",
            "net-veth1a2b3c",
            "cpu",
            "memory",
            "disk-sda",
            "net-wlan0"
        ])
    );
}

#[test]
fn merge_does_not_change_order_once_every_device_is_known() {
    let stored = ["net-eth0", "cpu", "memory", "disk-sda"];
    let present = ["cpu", "memory", "disk-sda", "net-eth0"];

    let once = merged(&stored, &present);
    let mut twice = once.clone();
    merge_new_devices(&mut twice, names(&present));

    assert_eq!(once, names(&stored));
    assert_eq!(twice, once);
}

#[test]
fn canonical_key_orders_categories() {
    let ordered = [
        "cpu",
        "memory",
        "disk-sda",
        "net-eth0",
        "gpu-0",
        "fan-0-0",
        "battery-BAT0",
    ];

    for pair in ordered.windows(2) {
        assert!(
            canonical_key(pair[0]) < canonical_key(pair[1]),
            "{} should sort before {}",
            pair[0],
            pair[1]
        );
    }
}

#[test]
fn canonical_key_puts_unknown_names_last() {
    let unknown = canonical_key("something-else");
    assert_eq!(unknown.0, 7);
    assert!(canonical_key("battery-BAT0") < unknown);
}

#[test]
fn canonical_key_groups_a_category_together() {
    let mut sorted = names(&["net-eth1", "cpu", "disk-sdb", "net-eth0", "disk-sda"]);
    sorted.sort_by(|a, b| canonical_key(a).cmp(&canonical_key(b)));

    assert_eq!(
        sorted,
        names(&["cpu", "disk-sda", "disk-sdb", "net-eth0", "net-eth1"])
    );
}

#[test]
fn view_action_name_maps_every_category() {
    let expected = [
        ("cpu", "cpu"),
        ("memory", "memory"),
        ("disk-sda", "disk"),
        ("net-eth0", "network"),
        ("gpu-0000:01:00.0", "gpu"),
        ("fan-0-1", "fan"),
        ("battery-0-BAT0", "battery"),
    ];

    for (page_name, action) in expected {
        assert_eq!(
            view_action_name(page_name),
            Some(action),
            "{} should use the {} action",
            page_name,
            action
        );
    }
}

#[test]
fn view_action_name_rejects_names_outside_the_categories() {
    for page_name in ["", "cpufreq", "netlink-0", "something-else"] {
        assert_eq!(view_action_name(page_name), None);
    }
}

#[test]
fn canonical_key_keeps_the_name_and_counts_prefix_matches() {
    assert_eq!(canonical_key("cpufreq"), (0, "cpufreq"));
    assert_eq!(canonical_key("netlink-0"), (3, "netlink-0"));
    assert_eq!(canonical_key(""), (7, ""));
}

#[test]
fn merging_twice_gives_the_same_order() {
    let present = ["net-eth1", "cpu", "gpu-1", "net-eth0", "fan-0-0"];
    let once = merged(&["gpu-0", "memory", "net-eth0"], &present);
    let mut twice = once.clone();
    merge_new_devices(&mut twice, names(&present));
    assert_eq!(twice, once);
    for name in present.iter().chain(["gpu-0", "memory"].iter()) {
        assert!(once.contains(&name.to_string()));
    }
}

#[test]
fn merge_keeps_the_saved_names_in_their_order() {
    let stored = ["fan-0-0", "net-eth1", "cpu"];
    let order = merged(&stored, &["cpu", "net-eth0", "net-eth2", "memory", "fan-0-1"]);
    let kept: Vec<String> = order
        .iter()
        .filter(|name| stored.contains(&name.as_str()))
        .cloned()
        .collect();
    assert_eq!(kept, names(&stored));
    assert_eq!(order.len(), 7);
}

#[test]
fn prune_removes_no_more_than_the_excess() {
    let mut order = names(&["a", "b", "c", "d", "e", "f"]);
    prune_sidebar_order(&mut order, &present(&["f"]), 4);
    assert_eq!(order, names(&["a", "b", "c", "f"]));
}

#[test]
fn moving_a_row_before_or_after_its_target() {
    let order = names(&["cpu", "memory", "disk-sda", "net-eth0"]);
    assert_eq!(
        move_in_saved_order(&order, "net-eth0", "memory", false),
        Some(names(&["cpu", "net-eth0", "memory", "disk-sda"]))
    );
    assert_eq!(
        move_in_saved_order(&order, "cpu", "disk-sda", true),
        Some(names(&["memory", "disk-sda", "cpu", "net-eth0"]))
    );
}

#[test]
fn moving_a_row_onto_itself_or_an_unknown_target_saves_nothing() {
    let order = names(&["cpu", "memory"]);
    assert_eq!(move_in_saved_order(&order, "cpu", "cpu", true), None);
    assert_eq!(move_in_saved_order(&order, "cpu", "gpu-0", false), None);
}

#[test]
fn nearest_shown_row_searches_forward_then_backward() {
    let shown = vec![true, false, false, true, false];
    assert_eq!(nearest_shown_row(&shown, 2), Some(3));
    assert_eq!(nearest_shown_row(&shown, 1), Some(0));
    assert_eq!(nearest_shown_row(&shown, 4), Some(3));
    assert_eq!(nearest_shown_row(&shown, 5), Some(3));
    assert_eq!(nearest_shown_row(&shown, 6), None);
    assert_eq!(nearest_shown_row(&vec![false, false], 0), None);
}

#[test]
fn select_page_row_prefers_the_page_itself() {
    let rows = names(&["cpu", "memory", "disk-sda"]);
    assert_eq!(select_page_row(&rows, &vec![true, true, true], "memory"), Some(1));
    assert_eq!(select_page_row(&rows, &vec![true, false, true], "memory"), Some(0));
    assert_eq!(select_page_row(&rows, &vec![false, false, true], "memory"), Some(2));
    assert_eq!(select_page_row(&rows, &vec![false, true, true], "gone"), Some(1));
}

#[test]
fn first_shown_row_of_a_category() {
    let rows = names(&["cpu", "net-eth0", "net-eth1", "disk-sda"]);
    assert_eq!(
        first_shown_in_category(&rows, &vec![true, false, true, true], "network"),
        Some(2)
    );
    assert_eq!(
        first_shown_in_category(&rows, &vec![true, true, true, false], "disk"),
        None
    );
}

#[test]
fn nth_shown_row_skips_hidden_rows() {
    let shown = vec![false, true, false, true, true];
    assert_eq!(nth_shown_row(&shown, 0), Some(1));
    assert_eq!(nth_shown_row(&shown, 2), Some(4));
    assert_eq!(nth_shown_row(&shown, 3), None);
    assert_eq!(nth_shown_row(&shown, -1), None);
}

#[test]
fn rows_in_the_saved_order_sort_first_by_rank() {
    let saved = row_sort_key(Some(3), "net-eth0");
    let other = row_sort_key(None, "cpu");
    assert_eq!(saved, (0, 3, 0, String::new()));
    assert_eq!(other, (1, 0, 0, "cpu".to_string()));
    assert!(saved < other);
    assert!(row_sort_key(None, "disk-sda") < row_sort_key(None, "gpu-0"));
    assert!(row_sort_key(Some(0), "gpu-0") < row_sort_key(Some(1), "cpu"));
}

#[test]
fn saved_order_entries_skip_empty_pieces() {
    assert_eq!(saved_order_entries("cpu;memory;;disk-sda;"), names(&["cpu", "memory", "disk-sda"]));
    assert_eq!(saved_order_entries(""), Vec::<String>::new());
    assert_eq!(saved_order_entries(";;"), Vec::<String>::new());
}

#[test]
fn saved_order_text_is_none_when_unchanged() {
    let order = names(&["cpu", "memory", "net-eth0"]);
    assert_eq!(saved_order_text(&order, "cpu;memory;net-eth0"), None);
    assert_eq!(
        saved_order_text(&order, "cpu;memory"),
        Some("cpu;memory;net-eth0".to_string())
    );
    assert_eq!(saved_order_text(&Vec::new(), "cpu"), Some(String::new()));
}

#[test]
fn saved_order_reads_back_what_was_written() {
    let order = names(&["memory", "cpu", "disk-nvme0n1", "net-wlan0"]);
    let text = saved_order_text(&order, "").unwrap();
    assert_eq!(saved_order_entries(&text), order);
}

#[test]
fn refreshing_the_order_merges_then_prunes() {
    let mut order = names(&["memory", "cpu"]);
    refresh_sidebar_order(&mut order, present(&["cpu", "memory", "disk-sda"]));
    assert_eq!(order, names(&["memory", "cpu", "disk-sda"]));

    let mut long: Vec<String> = (0..300).map(|i| format!("disk-gone{i:03}")).collect();
    refresh_sidebar_order(&mut long, present(&["cpu"]));
    assert_eq!(long.len(), MAX_REMEMBERED_DEVICES);
    assert_eq!(long[0], "cpu");
    assert!(long.iter().all(|name| name != "disk-gone299"));
}

#[test]
fn the_drop_hint_follows_the_pointer_or_the_last_shown_row() {
    let eligible = vec![true, true, false, true, false];
    let graphs = vec![true, true, true, true, true];
    assert_eq!(drop_hint_row(Some(1), false, 5, &eligible, &graphs), Some((1, false)));
    assert_eq!(drop_hint_row(None, true, 5, &eligible, &graphs), None);
    assert_eq!(drop_hint_row(None, false, 5, &eligible, &graphs), Some((3, true)));
    assert_eq!(drop_hint_row(None, false, 3, &eligible, &graphs), Some((1, true)));
    let not_graph = vec![true, true, true, false, true];
    assert_eq!(drop_hint_row(None, false, 5, &eligible, &not_graph), None);
    assert_eq!(drop_hint_row(None, false, 0, &eligible, &graphs), None);
}

#[test]
fn hidden_graphs_become_hide_overrides_unless_chosen() {
    let mut overrides = vec![("cpu".to_string(), DeviceOverride::Show)];
    migrate_hidden_graphs(&mut overrides, "cpu;;disk-sda;disk-sda;net-eth0");
    assert_eq!(
        overrides,
        vec![
            ("cpu".to_string(), DeviceOverride::Show),
            ("disk-sda".to_string(), DeviceOverride::Hide),
            ("net-eth0".to_string(), DeviceOverride::Hide),
        ]
    );
}
