//! Naming of the performance page's device pages and the bookkeeping done on every
//! new reading: which pages belong to devices that are gone, how devices are
//! numbered, and how much memory counts as used.

use vstd::prelude::*;
use crate::text::{decimal, joined, push_decimal, views};
use crate::sidebar::str_eq;
use crate::scaling::ScalingSettings;

verus! {

/// The page name of the disk `disk_id`.
pub fn disk_page_name(disk_id: &str) -> (name: String)
    ensures
        name@ == "disk-"@ + disk_id@,
{
    joined("disk-", disk_id)
}

/// The page name of the network interface `if_name`.
pub fn network_page_name(if_name: &str) -> (name: String)
    ensures
        name@ == "net-"@ + if_name@,
{
    joined("net-", if_name)
}

/// The page name of the GPU `device_id`.
pub fn gpu_page_name(device_id: &str) -> (name: String)
    ensures
        name@ == "gpu-"@ + device_id@,
{
    joined("gpu-", device_id)
}

/// The page name of fan `fan_index` of hardware monitor `hwmon_index`.
pub fn fan_page_name(hwmon_index: u64, fan_index: u64) -> (name: String)
    ensures
        name@ == "fan-"@ + decimal(hwmon_index as nat) + "-"@ + decimal(fan_index as nat),
{
    let mut name = String::from_str("fan-");
    push_decimal(&mut name, hwmon_index);
    name.append("-");
    push_decimal(&mut name, fan_index);
    name
}

/// The digit that tells batteries apart by their role: 0 for a power supply of the
/// system, 1 for a battery of a device, 2 when that is unknown.
pub open spec fn battery_role_digit(power_supply: Option<bool>) -> Seq<char> {
    match power_supply {
        Some(true) => "0"@,
        Some(false) => "1"@,
        None => "2"@,
    }
}

/// The page name of the battery `name`.
pub fn battery_page_name(power_supply: Option<bool>, name: &str) -> (page: String)
    ensures
        page@ == "battery-"@ + battery_role_digit(power_supply) + "-"@ + name@,
{
    let mut page = String::from_str("battery-");
    let digit = match power_supply {
        Some(true) => "0",
        Some(false) => "1",
        None => "2",
    };
    page.append(digit);
    page.append("-");
    page.append(name);
    page
}

/// The number shown next to a device: none when it is the only one of its kind.
pub fn device_index(count: usize, index: usize) -> (shown: Option<usize>)
    ensures
        shown == (if count == 1 {
            None::<usize>
        } else {
            Some(index)
        }),
{
    if count == 1 {
        None
    } else {
        Some(index)
    }
}

/// The memory in use: the total less what is available. When the kernel reports more
/// available than installed, the free memory is taken instead.
pub open spec fn used_memory_spec(mem_total: u64, mem_available: u64, mem_free: u64) -> int {
    let available = if mem_available > mem_total {
        mem_free
    } else {
        mem_available
    };
    if available >= mem_total {
        0
    } else {
        mem_total - available
    }
}

/// Memory in use never exceeds the total; it is the total less what the kernel reports
/// available when that is no more than the total, and otherwise the total less the
/// free memory, or nothing when even that is more than the total.
pub proof fn lemma_used_memory(mem_total: u64, mem_available: u64, mem_free: u64)
    ensures
        0 <= used_memory_spec(mem_total, mem_available, mem_free) <= mem_total,
        mem_available <= mem_total ==> used_memory_spec(mem_total, mem_available, mem_free)
            == mem_total - mem_available,
        mem_available > mem_total && mem_free <= mem_total ==> used_memory_spec(
            mem_total,
            mem_available,
            mem_free,
        ) == mem_total - mem_free,
        mem_available > mem_total && mem_free > mem_total ==> used_memory_spec(
            mem_total,
            mem_available,
            mem_free,
        ) == 0,
{
}

/// The memory in use; see `used_memory_spec`.
pub fn used_memory(mem_total: u64, mem_available: u64, mem_free: u64) -> (used: u64)
    ensures
        used == used_memory_spec(mem_total, mem_available, mem_free),
{
    let available = if mem_available > mem_total {
        mem_free
    } else {
        mem_available
    };
    mem_total.saturating_sub(available)
}

/// Whether `name` is one of `names`.
pub fn contains_str(names: &Vec<String>, name: &str) -> (found: bool)
    ensures
        found == views(names@).contains(name@),
{
    let mut i: usize = 0;
    while i < names.len()
        invariant
            i <= names@.len(),
            forall|j: int| 0 <= j < i ==> views(names@)[j] != name@,
        decreases names.len() - i,
    {
        if str_eq(names[i].as_str(), name) {
            assert(views(names@)[i as int] == name@);
            return true;
        }
        i += 1;
    }
    false
}

/// The pages of `existing` whose device is not among `live`, in the order of
/// `existing`: the pages to take down after a reading.
pub fn stale_page_names(existing: &Vec<String>, live: &Vec<String>) -> (stale: Vec<String>)
    ensures
        views(stale@) == views(existing@).filter(|name: Seq<char>| !views(live@).contains(name)),
{
    let ghost gone = |name: Seq<char>| !views(live@).contains(name);
    let mut stale: Vec<String> = Vec::new();
    let mut i: usize = 0;
    assert(views(existing@).take(0).filter(gone) =~= Seq::<Seq<char>>::empty()) by {
        reveal(Seq::filter);
    }
    while i < existing.len()
        invariant
            i <= existing@.len(),
            gone == (|name: Seq<char>| !views(live@).contains(name)),
            views(stale@) == views(existing@).take(i as int).filter(gone),
        decreases existing.len() - i,
    {
        let ghost before = stale@;
        let is_gone = !contains_str(live, existing[i].as_str());
        if is_gone {
            stale.push(existing[i].clone());
        }
        proof {
            let prefix = views(existing@).take(i as int);
            assert(views(existing@).take(i + 1) =~= prefix.push(views(existing@)[i as int]));
            prefix.lemma_filter_push(views(existing@)[i as int], gone);
            if is_gone {
                assert(views(stale@) =~= views(before).push(existing@[i as int]@));
            } else {
                assert(views(stale@) =~= views(before));
            }
        }
        i += 1;
    }
    assert(views(existing@).take(existing@.len() as int) =~= views(existing@));
    stale
}

/// The page names of the disks `ids` whose capacities are positive, in order.
pub open spec fn live_disk_names(ids: Seq<Seq<char>>, capacities: Seq<u64>) -> Seq<Seq<char>>
    decreases ids.len(),
{
    if ids.len() == 0 || capacities.len() == 0 {
        Seq::empty()
    } else {
        let rest = live_disk_names(ids.drop_last(), capacities.drop_last());
        if capacities.last() > 0 {
            rest.push("disk-"@ + ids.last())
        } else {
            rest
        }
    }
}

/// The page names of the disks that can be shown: those with a capacity.
pub fn live_disk_page_names(disk_ids: &Vec<String>, capacities: &Vec<u64>) -> (names: Vec<String>)
    requires
        disk_ids@.len() == capacities@.len(),
    ensures
        views(names@) == live_disk_names(views(disk_ids@), capacities@),
        names@.len() <= disk_ids@.len(),
        forall|name: Seq<char>| #[trigger] views(names@).contains(name) <==> exists|i: int|
            0 <= i < disk_ids@.len() && capacities@[i] > 0 && name == "disk-"@ + disk_ids@[i]@,
{
    let mut names: Vec<String> = Vec::new();
    let mut i: usize = 0;
    while i < disk_ids.len()
        invariant
            i <= disk_ids@.len(),
            disk_ids@.len() == capacities@.len(),
            names@.len() <= i,
            views(names@) == live_disk_names(views(disk_ids@).take(i as int), capacities@.take(i as int)),
            forall|name: Seq<char>| #[trigger] views(names@).contains(name) <==> exists|k: int|
                0 <= k < i && capacities@[k] > 0 && name == "disk-"@ + disk_ids@[k]@,
        decreases disk_ids.len() - i,
    {
        let ghost before = views(names@);
        assert(views(disk_ids@).take(i + 1).drop_last() =~= views(disk_ids@).take(i as int));
        assert(capacities@.take(i + 1).drop_last() =~= capacities@.take(i as int));
        assert(views(disk_ids@).take(i + 1).last() == disk_ids@[i as int]@);
        if capacities[i] > 0 {
            let name = disk_page_name(disk_ids[i].as_str());
            names.push(name);
            proof {
                assert(views(names@) =~= before.push("disk-"@ + disk_ids@[i as int]@));
                assert forall|n: Seq<char>| #[trigger] views(names@).contains(n) <==> exists|k: int|
                    0 <= k < i + 1 && capacities@[k] > 0 && n == "disk-"@ + disk_ids@[k]@ by {
                    if views(names@).contains(n) {
                        let j = choose|j: int| 0 <= j < views(names@).len() && views(names@)[j] == n;
                        if j < before.len() {
                            assert(before[j] == n);
                            assert(before.contains(n));
                        }
                    }
                    if exists|k: int| 0 <= k < i + 1 && capacities@[k] > 0 && n == "disk-"@ + disk_ids@[k]@ {
                        let k = choose|k: int| 0 <= k < i + 1 && capacities@[k] > 0 && n == "disk-"@ + disk_ids@[k]@;
                        if k < i {
                            assert(before.contains(n));
                            let j = choose|j: int| 0 <= j < before.len() && before[j] == n;
                            assert(views(names@)[j] == n);
                        } else {
                            assert(views(names@)[before.len() as int] == n);
                        }
                    }
                }
            }
        } else {
            proof {
                assert forall|n: Seq<char>| #[trigger] views(names@).contains(n) <==> exists|k: int|
                    0 <= k < i + 1 && capacities@[k] > 0 && n == "disk-"@ + disk_ids@[k]@ by {
                    if exists|k: int| 0 <= k < i + 1 && capacities@[k] > 0 && n == "disk-"@ + disk_ids@[k]@ {
                        let k = choose|k: int| 0 <= k < i + 1 && capacities@[k] > 0 && n == "disk-"@ + disk_ids@[k]@;
                        assert(k < i);
                    }
                }
            }
        }
        i += 1;
    }
    assert(views(disk_ids@).take(disk_ids@.len() as int) =~= views(disk_ids@));
    assert(capacities@.take(capacities@.len() as int) =~= capacities@);
    names
}

/// The heading of a network device's summary: its connection kind, then its
/// interface name in brackets.
pub fn network_heading(kind_name: &str, if_name: &str) -> (heading: String)
    ensures
        heading@ == kind_name@ + " ("@ + if_name@ + ")"@,
{
    let mut heading = joined(kind_name, " (");
    heading.append(if_name);
    heading.append(")");
    heading
}

/// How the send rate of a network device is scaled: fixed to the device's maximum
/// speed when it reports one and dynamic scaling is off, else following the data.
pub fn network_send_scaling(has_max_speed: bool, dynamic_scaling: bool) -> (scaling: ScalingSettings)
    ensures
        scaling == (if has_max_speed && !dynamic_scaling {
            ScalingSettings::Fixed
        } else {
            ScalingSettings::ScaleUp
        }),
{
    if has_max_speed && !dynamic_scaling {
        ScalingSettings::Fixed
    } else {
        ScalingSettings::ScaleUp
    }
}

/// The devices of a reading, by position, that need a page: those whose page name is
/// not among `existing` and that may be shown (`eligible`).
pub open spec fn new_device_positions(
    names: Seq<Seq<char>>,
    existing: Seq<Seq<char>>,
    eligible: Seq<bool>,
) -> Seq<int>
    decreases names.len(),
{
    if names.len() == 0 {
        Seq::empty()
    } else {
        let n = names.len() - 1;
        let rest = new_device_positions(names.drop_last(), existing, eligible);
        if eligible[n] && !existing.contains(names[n]) {
            rest.push(n)
        } else {
            rest
        }
    }
}

/// The positions of the devices of a reading that need a new page; `page_names`
/// holds the page name of each device in the reading's order.
pub fn devices_without_page(
    page_names: &Vec<String>,
    existing: &Vec<String>,
    eligible: &Vec<bool>,
) -> (positions: Vec<usize>)
    requires
        page_names@.len() == eligible@.len(),
    ensures
        positions@.map_values(|p: usize| p as int) == new_device_positions(
            views(page_names@),
            views(existing@),
            eligible@,
        ),
{
    let mut positions: Vec<usize> = Vec::new();
    let mut i: usize = 0;
    assert(views(page_names@).take(0) =~= Seq::<Seq<char>>::empty());
    assert(positions@.map_values(|p: usize| p as int) =~= Seq::<int>::empty());
    while i < page_names.len()
        invariant
            i <= page_names@.len(),
            page_names@.len() == eligible@.len(),
            positions@.map_values(|p: usize| p as int) == new_device_positions(
                views(page_names@).take(i as int),
                views(existing@),
                eligible@,
            ),
        decreases page_names.len() - i,
    {
        let ghost before = positions@;
        let ghost t = views(page_names@).take(i + 1);
        assert(t.drop_last() =~= views(page_names@).take(i as int));
        assert(t[i as int] == page_names@[i as int]@);
        if eligible[i] && !contains_str(existing, page_names[i].as_str()) {
            positions.push(i);
            assert(positions@.map_values(|p: usize| p as int) =~= before.map_values(
                |p: usize| p as int,
            ).push(i as int));
        }
        i += 1;
    }
    assert(views(page_names@).take(page_names@.len() as int) =~= views(page_names@));
    positions
}

} // verus!
