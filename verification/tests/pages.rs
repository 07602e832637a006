use mission_center::pages::{
    battery_page_name, device_index, disk_page_name, fan_page_name, gpu_page_name,
    devices_without_page, live_disk_page_names, network_heading, network_page_name,
    network_send_scaling, stale_page_names, used_memory,
};
use mission_center::scaling::ScalingSettings;
use mission_center::system_info::sorted_indices;

fn names(list: &[&str]) -> Vec<String> {
    list.iter().map(|name| name.to_string()).collect()
}

#[test]
fn page_names_carry_the_category_prefix() {
    assert_eq!(disk_page_name("nvme0n1"), "disk-nvme0n1");
    assert_eq!(network_page_name("wlan0"), "net-wlan0");
    assert_eq!(gpu_page_name("0000:01:00.0"), "gpu-0000:01:00.0");
    assert_eq!(fan_page_name(0, 1), "fan-0-1");
    assert_eq!(fan_page_name(12, 340), "fan-12-340");
}

#[test]
fn battery_page_names_tell_roles_apart() {
    assert_eq!(battery_page_name(Some(true), "BAT0"), "battery-0-BAT0");
    assert_eq!(battery_page_name(Some(false), "hidpp_battery_1"), "battery-1-hidpp_battery_1");
    assert_eq!(battery_page_name(None, "BAT1"), "battery-2-BAT1");
}

#[test]
fn a_single_device_is_not_numbered() {
    assert_eq!(device_index(1, 0), None);
    assert_eq!(device_index(3, 2), Some(2));
    assert_eq!(device_index(0, 0), Some(0));
}

#[test]
fn used_memory_falls_back_to_free_memory() {
    assert_eq!(used_memory(16, 10, 4), 6);
    assert_eq!(used_memory(16, 20, 4), 12);
    assert_eq!(used_memory(16, 20, 30), 0);
}

#[test]
fn stale_pages_are_those_without_a_live_device() {
    let existing = names(&["disk-sda", "disk-sdb", "disk-sdc"]);
    let live = names(&["disk-sdb"]);
    assert_eq!(stale_page_names(&existing, &live), names(&["disk-sda", "disk-sdc"]));
    assert!(stale_page_names(&existing, &existing).is_empty());
}

#[test]
fn disks_without_capacity_get_no_page() {
    let ids = names(&["sda", "sr0", "sdb"]);
    assert_eq!(
        live_disk_page_names(&ids, &vec![500, 0, 1]),
        names(&["disk-sda", "disk-sdb"])
    );
}

#[test]
fn network_summary_heading_and_scaling() {
    assert_eq!(network_heading("Wired", "eth0"), "Wired (eth0)");
    assert_eq!(network_send_scaling(true, false), ScalingSettings::Fixed);
    assert_eq!(network_send_scaling(true, true), ScalingSettings::ScaleUp);
    assert_eq!(network_send_scaling(false, false), ScalingSettings::ScaleUp);
}

#[test]
fn new_pages_go_to_eligible_devices_without_one() {
    let reading = names(&["disk-sda", "disk-sdb", "disk-sdc", "disk-sdd"]);
    let existing = names(&["disk-sdb"]);
    assert_eq!(
        devices_without_page(&reading, &existing, &vec![true, true, false, true]),
        vec![0, 3]
    );
}

#[test]
fn gpus_are_taken_in_order_of_their_ids() {
    let ids = names(&["0000:03:00.0", "0000:01:00.0", "0000:02:00.0"]);
    assert_eq!(sorted_indices(&ids), vec![1, 2, 0]);
}
